//! Triage: the decision log of a review session, its undo and `review.csv`.
//!
//! The log holds at most one decision per icon, and enough history to undo.
//! Undo restores whatever was there before. Sequence numbers never go
//! backwards: an undo removes a decision but does not free its number. A log
//! that is read back has no history.
use vstd::prelude::*;
use vstd::string::StringExecFns;
use crate::counting;
use crate::csv;
use crate::csv::CsvFault;
use crate::sorting;
use crate::sorting::SortKey;
use crate::text;
use crate::text::NumberFault;

verus! {

/// The header line of `review.csv`.
pub const REVIEW_HEADER: &'static str = "seq,id,action,at_ms";

/// What can be decided about an icon.
#[derive(Clone, Copy, Debug, PartialEq, Eq, Structural)]
pub enum TriageAction {
    /// Keep it.
    Approve,
    /// Drop it.
    Reject,
    /// Needs another look.
    Flag,
    /// A duplicate of its cluster's keeper.
    Duplicate,
    /// Kept together with everything else selected.
    BulkApprove,
}

/// The stable name of an action.
pub open spec fn action_name(a: TriageAction) -> Seq<char> {
    match a {
        TriageAction::Approve => "approve"@,
        TriageAction::Reject => "reject"@,
        TriageAction::Flag => "flag"@,
        TriageAction::Duplicate => "duplicate"@,
        TriageAction::BulkApprove => "bulk-approve"@,
    }
}

/// The action with a name.
pub open spec fn action_named(s: Seq<char>) -> Option<TriageAction> {
    if s == "approve"@ {
        Some(TriageAction::Approve)
    } else if s == "reject"@ {
        Some(TriageAction::Reject)
    } else if s == "flag"@ {
        Some(TriageAction::Flag)
    } else if s == "duplicate"@ {
        Some(TriageAction::Duplicate)
    } else if s == "bulk-approve"@ {
        Some(TriageAction::BulkApprove)
    } else {
        None
    }
}

/// The place of an action in the order of the counts.
pub open spec fn action_index(a: TriageAction) -> int {
    match a {
        TriageAction::Approve => 0,
        TriageAction::Reject => 1,
        TriageAction::Flag => 2,
        TriageAction::Duplicate => 3,
        TriageAction::BulkApprove => 4,
    }
}

impl TriageAction {
    /// Every action, in order.
    pub fn all() -> (r: [TriageAction; 5])
        ensures
            forall|i: int| 0 <= i < 5 ==> action_index(#[trigger] r@[i]) == i,
    {
        [
            TriageAction::Approve,
            TriageAction::Reject,
            TriageAction::Flag,
            TriageAction::Duplicate,
            TriageAction::BulkApprove,
        ]
    }

    /// The stable name.
    pub fn as_str(self) -> (r: &'static str)
        ensures
            r@ == action_name(self),
    {
        match self {
            TriageAction::Approve => "approve",
            TriageAction::Reject => "reject",
            TriageAction::Flag => "flag",
            TriageAction::Duplicate => "duplicate",
            TriageAction::BulkApprove => "bulk-approve",
        }
    }

    /// The action with a name.
    pub fn parse(name: &str) -> (r: Option<TriageAction>)
        ensures
            r == action_named(name@),
    {
        let s = text::chars_of(name);
        if text::same(&s, &text::chars_of("approve")) {
            Some(TriageAction::Approve)
        } else if text::same(&s, &text::chars_of("reject")) {
            Some(TriageAction::Reject)
        } else if text::same(&s, &text::chars_of("flag")) {
            Some(TriageAction::Flag)
        } else if text::same(&s, &text::chars_of("duplicate")) {
            Some(TriageAction::Duplicate)
        } else if text::same(&s, &text::chars_of("bulk-approve")) {
            Some(TriageAction::BulkApprove)
        } else {
            None
        }
    }

    /// The keyboard shortcut.
    pub fn key(self) -> (r: &'static str)
        ensures
            r@ == (match self {
                TriageAction::Approve => "A"@,
                TriageAction::Reject => "R"@,
                TriageAction::Flag => "F"@,
                TriageAction::Duplicate => "D"@,
                TriageAction::BulkApprove => "Shift+A"@,
            }),
    {
        match self {
            TriageAction::Approve => "A",
            TriageAction::Reject => "R",
            TriageAction::Flag => "F",
            TriageAction::Duplicate => "D",
            TriageAction::BulkApprove => "Shift+A",
        }
    }

    /// Index into the counts.
    pub fn index(self) -> (r: usize)
        ensures
            r == action_index(self),
            r < 5,
    {
        match self {
            TriageAction::Approve => 0,
            TriageAction::Reject => 1,
            TriageAction::Flag => 2,
            TriageAction::Duplicate => 3,
            TriageAction::BulkApprove => 4,
        }
    }
}

/// Names read back as the action they name.
pub proof fn names_round_trip(a: TriageAction)
    ensures
        action_named(action_name(a)) == Some(a),
{
    reveal_strlit("approve");
    reveal_strlit("reject");
    reveal_strlit("flag");
    reveal_strlit("duplicate");
    reveal_strlit("bulk-approve");
    assert("approve"@.len() == 7 && "reject"@.len() == 6 && "flag"@.len() == 4 && "duplicate"@.len()
        == 9 && "bulk-approve"@.len() == 12);
}

/// One decision.
#[derive(Clone, Copy, Debug, PartialEq, Eq, Structural)]
pub struct TriageDecision {
    /// What was decided.
    pub action: TriageAction,
    /// Its sequence number in the session.
    pub seq: u64,
    /// Unix milliseconds at which it was made.
    pub at_ms: u64,
}

/// An icon and its decision.
pub type Entry = (u32, TriageDecision);

// ---- entries --------------------------------------------------------------------------

/// Ids ascend, so there is one entry per icon.
pub open spec fn ascending(es: Seq<Entry>) -> bool {
    forall|i: int, j: int| 0 <= i < j < es.len() ==> (#[trigger] es[i]).0 < (#[trigger] es[j]).0
}

/// Icon `id` is decided.
pub open spec fn has_entry(es: Seq<Entry>, id: u32) -> bool {
    exists|i: int| 0 <= i < es.len() && (#[trigger] es[i]).0 == id
}

/// The decision on icon `id`.
pub open spec fn entry_of(es: Seq<Entry>, id: u32) -> TriageDecision {
    es[choose|i: int| 0 <= i < es.len() && (#[trigger] es[i]).0 == id].1
}

/// The decisions by icon.
pub open spec fn map_of(es: Seq<Entry>) -> Map<u32, TriageDecision> {
    Map::new(|id: u32| has_entry(es, id), |id: u32| entry_of(es, id))
}

/// The decision on an icon, if any.
pub open spec fn lookup(m: Map<u32, TriageDecision>, id: u32) -> Option<TriageDecision> {
    if m.contains_key(id) {
        Some(m[id])
    } else {
        None
    }
}

proof fn entry_at(es: Seq<Entry>, i: int)
    requires
        ascending(es),
        0 <= i < es.len(),
    ensures
        map_of(es).contains_key(es[i].0),
        map_of(es)[es[i].0] == es[i].1,
{
    let id = es[i].0;
    assert(has_entry(es, id));
    let k = choose|k: int| 0 <= k < es.len() && (#[trigger] es[k]).0 == id;
    if k < i {
        assert(es[k].0 < es[i].0);
    } else if i < k {
        assert(es[i].0 < es[k].0);
    }
}

/// Where icon `id` stands, or where it belongs.
fn position(es: &Vec<Entry>, id: u32) -> (r: usize)
    requires
        ascending(es@),
    ensures
        r <= es@.len(),
        forall|i: int| 0 <= i < r ==> (#[trigger] es@[i]).0 < id,
        forall|i: int| r <= i < es@.len() ==> (#[trigger] es@[i]).0 >= id,
{
    let mut lo: usize = 0;
    let mut hi: usize = es.len();
    while lo < hi
        invariant
            lo <= hi <= es@.len(),
            ascending(es@),
            forall|i: int| 0 <= i < lo ==> (#[trigger] es@[i]).0 < id,
            forall|i: int| hi <= i < es@.len() ==> (#[trigger] es@[i]).0 >= id,
        decreases hi - lo,
    {
        let mid: usize = lo + (hi - lo) / 2;
        if es[mid].0 < id {
            proof {
                assert forall|i: int| 0 <= i < mid + 1 implies (#[trigger] es@[i]).0 < id by {
                    if i < mid {
                        assert(es@[i].0 < es@[mid as int].0);
                    }
                }
            }
            lo = mid + 1;
        } else {
            proof {
                assert forall|i: int| mid <= i < es@.len() implies (#[trigger] es@[i]).0 >= id by {
                    if i > mid {
                        assert(es@[mid as int].0 < es@[i].0);
                    }
                }
            }
            hi = mid;
        }
    }
    lo
}

/// Records a decision; returns the one it replaces.
fn put(es: &mut Vec<Entry>, id: u32, d: TriageDecision) -> (r: Option<TriageDecision>)
    requires
        ascending(old(es)@),
    ensures
        ascending(final(es)@),
        map_of(final(es)@) == map_of(old(es)@).insert(id, d),
        r == lookup(map_of(old(es)@), id),
        final(es)@.len() == old(es)@.len() + (if r is Some {
            0int
        } else {
            1int
        }),
{
    let at: usize = position(es, id);
    let ghost e0 = es@;
    if at < es.len() && es[at].0 == id {
        let before = es[at].1;
        es.set(at, (id, d));
        proof {
            entry_at(e0, at as int);
            assert(ascending(es@));
            assert forall|k: u32| map_of(es@).contains_key(k) == #[trigger] map_of(e0).insert(
                id,
                d,
            ).contains_key(k) by {
                if has_entry(e0, k) {
                    let i = choose|i: int| 0 <= i < e0.len() && (#[trigger] e0[i]).0 == k;
                    assert(es@[i].0 == k);
                }
                if has_entry(es@, k) {
                    let i = choose|i: int| 0 <= i < es@.len() && (#[trigger] es@[i]).0 == k;
                    assert(e0[i].0 == k);
                }
                assert(es@[at as int].0 == id);
            }
            assert forall|k: u32| #[trigger] map_of(es@).contains_key(k) implies map_of(es@)[k]
                == map_of(e0).insert(id, d)[k] by {
                let i = choose|i: int| 0 <= i < es@.len() && (#[trigger] es@[i]).0 == k;
                entry_at(es@, i);
                entry_at(e0, i);
            }
            assert(map_of(es@) =~= map_of(e0).insert(id, d));
        }
        Some(before)
    } else {
        proof {
            assert forall|i: int| 0 <= i < e0.len() implies (#[trigger] e0[i]).0 != id by {
                if i > at {
                    assert(e0[at as int].0 < e0[i].0);
                }
            }
        }
        es.insert(at, (id, d));
        proof {
            assert(es@ =~= e0.insert(at as int, (id, d)));
            assert forall|i: int, j: int| 0 <= i < j < es@.len() implies (#[trigger] es@[i]).0 < (
            #[trigger] es@[j]).0 by {
                let a = if i < at {
                    i
                } else {
                    i - 1
                };
                let b = if j <= at {
                    j
                } else {
                    j - 1
                };
                if i != at && j != at {
                    assert(e0[a].0 < e0[b].0);
                }
                if i == at {
                    assert(e0[j - 1].0 > id);
                }
            }
            assert forall|k: u32| map_of(es@).contains_key(k) == #[trigger] map_of(e0).insert(
                id,
                d,
            ).contains_key(k) by {
                if has_entry(e0, k) {
                    let i = choose|i: int| 0 <= i < e0.len() && (#[trigger] e0[i]).0 == k;
                    if i < at {
                        assert(es@[i].0 == k);
                    } else {
                        assert(es@[i + 1].0 == k);
                    }
                }
                if has_entry(es@, k) {
                    let i = choose|i: int| 0 <= i < es@.len() && (#[trigger] es@[i]).0 == k;
                    if i < at {
                        assert(e0[i].0 == k);
                    } else if i > at {
                        assert(e0[i - 1].0 == k);
                    }
                }
                assert(es@[at as int].0 == id);
            }
            assert forall|k: u32| #[trigger] map_of(es@).contains_key(k) implies map_of(es@)[k]
                == map_of(e0).insert(id, d)[k] by {
                let i = choose|i: int| 0 <= i < es@.len() && (#[trigger] es@[i]).0 == k;
                entry_at(es@, i);
                if i < at {
                    entry_at(e0, i);
                } else if i > at {
                    entry_at(e0, i - 1);
                }
            }
            assert(map_of(es@) =~= map_of(e0).insert(id, d));
        }
        None
    }
}

/// Removes the decision on an icon.
fn take_out(es: &mut Vec<Entry>, id: u32)
    requires
        ascending(old(es)@),
    ensures
        ascending(final(es)@),
        map_of(final(es)@) == map_of(old(es)@).remove(id),
{
    let at: usize = position(es, id);
    let ghost e0 = es@;
    if at < es.len() && es[at].0 == id {
        es.remove(at);
        proof {
            assert(es@ =~= e0.remove(at as int));
            assert forall|i: int, j: int| 0 <= i < j < es@.len() implies (#[trigger] es@[i]).0 < (
            #[trigger] es@[j]).0 by {
                let a = if i < at {
                    i
                } else {
                    i + 1
                };
                let b = if j < at {
                    j
                } else {
                    j + 1
                };
                assert(e0[a].0 < e0[b].0);
            }
            assert forall|k: u32| map_of(es@).contains_key(k) == #[trigger] map_of(e0).remove(
                id,
            ).contains_key(k) by {
                if has_entry(e0, k) && k != id {
                    let i = choose|i: int| 0 <= i < e0.len() && (#[trigger] e0[i]).0 == k;
                    if i < at {
                        assert(es@[i].0 == k);
                    } else {
                        assert(es@[i - 1].0 == k);
                    }
                }
                if has_entry(es@, k) {
                    let i = choose|i: int| 0 <= i < es@.len() && (#[trigger] es@[i]).0 == k;
                    if i < at {
                        assert(e0[i].0 == k && e0[i].0 < e0[at as int].0);
                    } else {
                        assert(e0[i + 1].0 == k && e0[at as int].0 < e0[i + 1].0);
                    }
                }
            }
            assert forall|k: u32| #[trigger] map_of(es@).contains_key(k) implies map_of(es@)[k]
                == map_of(e0).remove(id)[k] by {
                let i = choose|i: int| 0 <= i < es@.len() && (#[trigger] es@[i]).0 == k;
                entry_at(es@, i);
                if i < at {
                    entry_at(e0, i);
                } else {
                    entry_at(e0, i + 1);
                }
            }
            assert(map_of(es@) =~= map_of(e0).remove(id));
        }
    } else {
        proof {
            assert forall|i: int| 0 <= i < e0.len() implies (#[trigger] e0[i]).0 != id by {
                if i > at {
                    assert(e0[at as int].0 < e0[i].0);
                }
            }
            assert(!has_entry(e0, id));
            assert(map_of(e0) =~= map_of(e0).remove(id));
        }
    }
}

/// Two ascending lists with the same decisions are equal.
pub proof fn entries_are_determined(a: Seq<Entry>, b: Seq<Entry>)
    requires
        ascending(a),
        ascending(b),
        map_of(a) == map_of(b),
    ensures
        a == b,
    decreases a.len() + b.len(),
{
    if a.len() > 0 && b.len() > 0 {
        let la = a[a.len() - 1];
        let lb = b[b.len() - 1];
        entry_at(a, a.len() - 1);
        entry_at(b, b.len() - 1);
        assert(has_entry(b, la.0));
        assert(has_entry(a, lb.0));
        let i = choose|i: int| 0 <= i < b.len() && (#[trigger] b[i]).0 == la.0;
        let j = choose|j: int| 0 <= j < a.len() && (#[trigger] a[j]).0 == lb.0;
        assert(la.0 == lb.0) by {
            if i < b.len() - 1 {
                assert(b[i].0 < lb.0);
            }
            if j < a.len() - 1 {
                assert(a[j].0 < la.0);
            }
        }
        let a1 = a.drop_last();
        let b1 = b.drop_last();
        assert(map_of(a1) =~= map_of(a).remove(la.0)) by {
            last_removed(a);
        }
        assert(map_of(b1) =~= map_of(b).remove(lb.0)) by {
            last_removed(b);
        }
        entries_are_determined(a1, b1);
        assert(a =~= a1.push(la));
        assert(b =~= b1.push(lb));
    } else if a.len() > 0 {
        entry_at(a, 0);
        assert(has_entry(b, a[0].0));
    } else if b.len() > 0 {
        entry_at(b, 0);
        assert(has_entry(a, b[0].0));
    } else {
        assert(a =~= b);
    }
}

proof fn last_removed(a: Seq<Entry>)
    requires
        ascending(a),
        a.len() > 0,
    ensures
        ascending(a.drop_last()),
        map_of(a.drop_last()) == map_of(a).remove(a[a.len() - 1].0),
{
    let b = a.drop_last();
    let id = a[a.len() - 1].0;
    assert forall|i: int, j: int| 0 <= i < j < b.len() implies (#[trigger] b[i]).0 < (#[trigger] b[j]).0 by {
        assert(a[i].0 < a[j].0);
    }
    assert forall|k: u32| map_of(b).contains_key(k) == #[trigger] map_of(a).remove(id).contains_key(k) by {
        if has_entry(a, k) && k != id {
            let i = choose|i: int| 0 <= i < a.len() && (#[trigger] a[i]).0 == k;
            assert(b[i].0 == k);
        }
        if has_entry(b, k) {
            let i = choose|i: int| 0 <= i < b.len() && (#[trigger] b[i]).0 == k;
            assert(a[i].0 == k && a[i].0 < a[a.len() - 1].0);
        }
    }
    assert forall|k: u32| #[trigger] map_of(b).contains_key(k) implies map_of(b)[k] == map_of(a).remove(
        id,
    )[k] by {
        let i = choose|i: int| 0 <= i < b.len() && (#[trigger] b[i]).0 == k;
        entry_at(b, i);
        entry_at(a, i);
    }
    assert(map_of(b) =~= map_of(a).remove(id));
}

// ---- the log --------------------------------------------------------------------------

/// A session's decisions, with undo.
#[derive(Clone, Debug, PartialEq, Eq)]
pub struct TriageLog {
    /// Current decisions, ids ascending.
    pub entries: Vec<Entry>,
    /// Per applied decision the icon and what was there before, oldest first.
    pub history: Vec<(u32, Option<TriageDecision>)>,
    /// The next sequence number.
    pub next_seq: u64,
}

/// `after` is `before` with a decision recorded under the next number.
pub open spec fn is_applied(before: TriageLog, id: u32, d: TriageDecision, after: TriageLog) -> bool {
    &&& d.seq == before.next_seq
    &&& after.next_seq == before.next_seq + 1
    &&& after@ == before@.insert(id, d)
    &&& after.history@ == before.history@.push((id, lookup(before@, id)))
}

/// `after` is `before` with the latest decision reverted, and `r` says which
/// icon that was and what stands for it now; where there is nothing to revert,
/// nothing changes.
pub open spec fn is_undone(
    before: TriageLog,
    r: Option<(u32, Option<TriageDecision>)>,
    after: TriageLog,
) -> bool {
    if before.history@.len() == 0 {
        r is None && after == before
    } else {
        let last = before.history@[before.history@.len() - 1];
        &&& r == Some(last)
        &&& after.next_seq == before.next_seq
        &&& after.history@ == before.history@.drop_last()
        &&& after@ == (match last.1 {
            Some(d) => before@.insert(last.0, d),
            None => before@.remove(last.0),
        })
    }
}

impl TriageLog {
    /// One entry per icon, and every number handed out lies below the next one.
    pub open spec fn wf(&self) -> bool {
        &&& ascending(self.entries@)
        &&& forall|i: int| 0 <= i < self.entries@.len() ==> (#[trigger] self.entries@[i]).1.seq < self.next_seq
        &&& forall|i: int|
            0 <= i < self.history@.len() ==> match (#[trigger] self.history@[i]).1 {
                Some(d) => d.seq < self.next_seq,
                None => true,
            }
    }

    /// The decisions by icon.
    pub open spec fn view(&self) -> Map<u32, TriageDecision> {
        map_of(self.entries@)
    }

    /// An empty log.
    pub fn new() -> (r: TriageLog)
        ensures
            r.wf(),
            r@ == Map::<u32, TriageDecision>::empty(),
            r.entries@.len() == 0,
            r.history@.len() == 0,
            r.next_seq == 0,
    {
        let r = TriageLog { entries: Vec::new(), history: Vec::new(), next_seq: 0 };
        assert(r@ =~= Map::<u32, TriageDecision>::empty());
        r
    }

    /// Records a decision and returns its sequence number. A second decision on
    /// an icon replaces the first, which is what undo puts back.
    pub fn apply(&mut self, id: u32, action: TriageAction, at_ms: u64) -> (seq: u64)
        requires
            old(self).wf(),
            old(self).next_seq < u64::MAX,
        ensures
            final(self).wf(),
            is_applied(*old(self), id, TriageDecision { action, seq, at_ms }, *final(self)),
    {
        let ghost l0 = *self;
        let seq: u64 = self.next_seq;
        self.next_seq = seq + 1;
        let mut entries: Vec<Entry> = Vec::new();
        std::mem::swap(&mut self.entries, &mut entries);
        let previous = put(&mut entries, id, TriageDecision { action, seq, at_ms });
        proof {
            assert forall|i: int| 0 <= i < entries@.len() implies (#[trigger] entries@[i]).1.seq < seq + 1 by {
                entry_at(entries@, i);
                let k = entries@[i].0;
                if k != id {
                    assert(l0@.contains_key(k) && l0@[k] == entries@[i].1);
                    let j = choose|j: int| 0 <= j < l0.entries@.len() && (#[trigger] l0.entries@[j]).0 == k;
                    entry_at(l0.entries@, j);
                }
            }
            if has_entry(l0.entries@, id) {
                let j = choose|j: int| 0 <= j < l0.entries@.len() && (#[trigger] l0.entries@[j]).0 == id;
                entry_at(l0.entries@, j);
            }
        }
        self.entries = entries;
        self.history.push((id, previous));
        seq
    }

    /// Reverts the most recent decision. Returns the icon and the decision that
    /// stands for it now, or `None` when there is nothing to undo.
    pub fn undo(&mut self) -> (r: Option<(u32, Option<TriageDecision>)>)
        requires
            old(self).wf(),
        ensures
            final(self).wf(),
            is_undone(*old(self), r, *final(self)),
    {
        let ghost l0 = *self;
        if self.history.len() == 0 {
            return None;
        }
        let n: usize = self.history.len();
        let last = self.history[n - 1];
        let mut history: Vec<(u32, Option<TriageDecision>)> = Vec::new();
        std::mem::swap(&mut self.history, &mut history);
        history.pop();
        self.history = history;
        assert(self.history@ =~= l0.history@.drop_last());
        let mut entries: Vec<Entry> = Vec::new();
        std::mem::swap(&mut self.entries, &mut entries);
        match last.1 {
            Some(d) => {
                put(&mut entries, last.0, d);
            },
            None => {
                take_out(&mut entries, last.0);
            },
        }
        proof {
            assert forall|i: int| 0 <= i < entries@.len() implies (#[trigger] entries@[i]).1.seq
                < l0.next_seq by {
                entry_at(entries@, i);
                let k = entries@[i].0;
                if k != last.0 {
                    assert(l0@.contains_key(k) && l0@[k] == entries@[i].1);
                    let j = choose|j: int| 0 <= j < l0.entries@.len() && (#[trigger] l0.entries@[j]).0 == k;
                    entry_at(l0.entries@, j);
                } else {
                    assert(l0.history@[n - 1] == last);
                }
            }
        }
        self.entries = entries;
        Some(last)
    }

    /// The next sequence number.
    pub fn next_seq(&self) -> (r: u64)
        ensures
            r == self.next_seq,
    {
        self.next_seq
    }

    /// True when there is a decision left to undo.
    pub fn can_undo(&self) -> (r: bool)
        ensures
            r == (self.history@.len() > 0),
    {
        self.history.len() > 0
    }

    /// The current decision on an icon.
    pub fn decision(&self, id: u32) -> (r: Option<TriageDecision>)
        requires
            self.wf(),
        ensures
            r == lookup(self@, id),
    {
        let at: usize = position(&self.entries, id);
        if at < self.entries.len() && self.entries[at].0 == id {
            proof {
                entry_at(self.entries@, at as int);
            }
            Some(self.entries[at].1)
        } else {
            proof {
                assert forall|i: int| 0 <= i < self.entries@.len() implies (
                #[trigger] self.entries@[i]).0 != id by {
                    if i > at {
                        assert(self.entries@[at as int].0 < self.entries@[i].0);
                    }
                }
            }
            None
        }
    }

    /// How many icons are decided.
    pub fn len(&self) -> (r: usize)
        ensures
            r == self.entries@.len(),
    {
        self.entries.len()
    }

    /// True when nothing has been decided.
    pub fn is_empty(&self) -> (r: bool)
        ensures
            r == (self.entries@.len() == 0),
    {
        self.entries.len() == 0
    }

    /// Decided icons, ids ascending.
    pub fn decisions(&self) -> (r: Vec<Entry>)
        ensures
            r@ == self.entries@,
    {
        let mut out: Vec<Entry> = Vec::new();
        let mut i: usize = 0;
        while i < self.entries.len()
            invariant
                i <= self.entries@.len(),
                out@ == self.entries@.take(i as int),
            decreases self.entries@.len() - i,
        {
            out.push(self.entries[i]);
            assert(self.entries@.take(i + 1) =~= self.entries@.take(i as int).push(
                self.entries@[i as int],
            ));
            i = i + 1;
        }
        assert(self.entries@.take(self.entries@.len() as int) =~= self.entries@);
        out
    }

    /// How many decisions per action, in the order of the actions.
    pub fn counts(&self) -> (r: [usize; 5])
        ensures
            forall|a: TriageAction|
                #![trigger action_index(a)]
                r@[action_index(a)] == counting::count_below(
                    with_action(self.entries@, a),
                    self.entries@.len() as int,
                ),
            r@[0] + r@[1] + r@[2] + r@[3] + r@[4] == self.entries@.len(),
    {
        let n: usize = self.entries.len();
        let mut c0: usize = 0;
        let mut c1: usize = 0;
        let mut c2: usize = 0;
        let mut c3: usize = 0;
        let mut c4: usize = 0;
        let mut i: usize = 0;
        while i < n
            invariant
                i <= n,
                n == self.entries@.len(),
                c0 + c1 + c2 + c3 + c4 == i,
                c0 <= i,
                c1 <= i,
                c2 <= i,
                c3 <= i,
                c4 <= i,
                c0 == counting::count_below(with_action(self.entries@, TriageAction::Approve), i as int),
                c1 == counting::count_below(with_action(self.entries@, TriageAction::Reject), i as int),
                c2 == counting::count_below(with_action(self.entries@, TriageAction::Flag), i as int),
                c3 == counting::count_below(with_action(self.entries@, TriageAction::Duplicate), i as int),
                c4 == counting::count_below(
                    with_action(self.entries@, TriageAction::BulkApprove),
                    i as int,
                ),
            decreases n - i,
        {
            match self.entries[i].1.action {
                TriageAction::Approve => {
                    c0 = c0 + 1;
                },
                TriageAction::Reject => {
                    c1 = c1 + 1;
                },
                TriageAction::Flag => {
                    c2 = c2 + 1;
                },
                TriageAction::Duplicate => {
                    c3 = c3 + 1;
                },
                TriageAction::BulkApprove => {
                    c4 = c4 + 1;
                },
            }
            i = i + 1;
        }
        [c0, c1, c2, c3, c4]
    }
}

/// Entries with an action.
pub open spec fn with_action(es: Seq<Entry>, a: TriageAction) -> spec_fn(int) -> bool {
    |i: int| es[i].1.action == a
}

/// Undo right after a decision puts back every decision and the whole history.
/// The number used is not used again: it and all earlier ones lie below the
/// next.
pub proof fn undo_reverts_apply(
    before: TriageLog,
    id: u32,
    d: TriageDecision,
    applied: TriageLog,
    r: Option<(u32, Option<TriageDecision>)>,
    undone: TriageLog,
)
    requires
        before.wf(),
        applied.wf(),
        undone.wf(),
        is_applied(before, id, d, applied),
        is_undone(applied, r, undone),
    ensures
        r == Some((id, lookup(before@, id))),
        undone@ == before@,
        undone.entries@ == before.entries@,
        undone.history@ == before.history@,
        undone.next_seq > d.seq,
        forall|i: int| 0 <= i < before.entries@.len() ==> (#[trigger] before.entries@[i]).1.seq < d.seq,
{
    assert(undone.history@ =~= before.history@);
    assert(undone@ =~= before@);
    entries_are_determined(undone.entries@, before.entries@);
}

// ---- writing --------------------------------------------------------------------------

/// Sequence numbers as sort keys.
pub open spec fn seq_keys(es: Seq<Entry>) -> Seq<SortKey> {
    Seq::new(es.len(), |i: int| (es[i].1.seq, 0u64, 0u64, 0u64))
}

/// One row, without its line end.
pub open spec fn line_of(e: Entry) -> Seq<char> {
    text::decimal(e.1.seq as nat) + ","@ + text::decimal(e.0 as nat) + ","@ + action_name(e.1.action)
        + ","@ + text::decimal(e.1.at_ms as nat)
}

/// A line that must be quoted.
pub open spec fn needs_quotes(line: Seq<char>) -> bool {
    exists|i: int|
        0 <= i < line.len() && ((#[trigger] line[i]) == '"' || line[i] == '\n' || line[i] == '\r')
}

/// A line with its quotes doubled.
pub open spec fn doubled(line: Seq<char>, n: int) -> Seq<char>
    decreases n,
{
    if n <= 0 {
        Seq::empty()
    } else if line[n - 1] == '"' {
        doubled(line, n - 1).push('"').push('"')
    } else {
        doubled(line, n - 1).push(line[n - 1])
    }
}

/// A row with its line end, quoted only when it must be.
pub open spec fn row_text(line: Seq<char>) -> Seq<char> {
    if needs_quotes(line) {
        seq!['"'] + doubled(line, line.len() as int) + seq!['"'] + "\r\n"@
    } else {
        line + "\r\n"@
    }
}

/// The rows of the first `n` entries in the given order.
pub open spec fn rows_text(es: Seq<Entry>, order: Seq<usize>, n: int) -> Seq<char>
    decreases n,
{
    if n <= 0 {
        Seq::empty()
    } else {
        rows_text(es, order, n - 1) + row_text(line_of(es[order[n - 1] as int]))
    }
}

/// `out` is the table of the entries, by sequence number.
pub open spec fn is_table(es: Seq<Entry>, out: Seq<char>) -> bool {
    exists|order: Seq<usize>| #[trigger]
        sorting::is_order(seq_keys(es), order, 0, es.len() as int) && out == REVIEW_HEADER@ + "\r\n"@
            + rows_text(es, order, es.len() as int)
}

/// Appends one row, quoting only when a field demands it.
pub fn push_row(out: &mut Vec<char>, line: &Vec<char>)
    ensures
        final(out)@ == old(out)@ + row_text(line@),
{
    let ghost o0 = out@;
    let n: usize = line.len();
    let mut quote: bool = false;
    let mut i: usize = 0;
    while i < n
        invariant
            i <= n,
            n == line@.len(),
            quote ==> needs_quotes(line@),
            !quote ==> forall|k: int|
                0 <= k < i ==> (#[trigger] line@[k]) != '"' && line@[k] != '\n' && line@[k] != '\r',
        decreases n - i,
    {
        let c: char = line[i];
        if c == '"' || c == '\n' || c == '\r' {
            quote = true;
            assert(needs_quotes(line@)) by {
                assert(line@[i as int] == c);
            }
        }
        i = i + 1;
    }
    if !quote {
        text::extend(out, line);
        text::extend_str(out, "\r\n");
        assert(out@ =~= o0 + (line@ + "\r\n"@));
        return;
    }
    out.push('"');
    let mut i: usize = 0;
    while i < n
        invariant
            i <= n,
            n == line@.len(),
            out@ == o0 + (seq!['"'] + doubled(line@, i as int)),
        decreases n - i,
    {
        let c: char = line[i];
        if c == '"' {
            out.push('"');
        }
        out.push(c);
        assert(out@ =~= o0 + (seq!['"'] + doubled(line@, i as int + 1)));
        i = i + 1;
    }
    out.push('"');
    text::extend_str(out, "\r\n");
    assert(out@ =~= o0 + (seq!['"'] + doubled(line@, n as int) + seq!['"'] + "\r\n"@));
}

fn push_number(out: &mut Vec<char>, n: u64)
    ensures
        final(out)@ == old(out)@ + text::decimal(n as nat),
{
    let mut s = String::new();
    text::push_decimal(&mut s, n);
    assert(s@ =~= text::decimal(n as nat));
    text::extend_str(out, s.as_str());
}

fn entry_line(e: &Entry) -> (r: Vec<char>)
    ensures
        r@ == line_of(*e),
{
    let mut line: Vec<char> = Vec::new();
    push_number(&mut line, e.1.seq);
    text::extend_str(&mut line, ",");
    push_number(&mut line, e.0 as u64);
    text::extend_str(&mut line, ",");
    text::extend_str(&mut line, e.1.action.as_str());
    text::extend_str(&mut line, ",");
    push_number(&mut line, e.1.at_ms);
    assert(line@ =~= line_of(*e));
    line
}

impl TriageLog {
    /// The decisions as a table, rows by sequence number.
    pub fn to_csv(&self) -> (r: String)
        ensures
            is_table(self.entries@, r@),
    {
        let n: usize = self.entries.len();
        let mut keys: Vec<SortKey> = Vec::new();
        let mut i: usize = 0;
        while i < n
            invariant
                i <= n,
                n == self.entries@.len(),
                keys@.len() == i,
                forall|k: int| 0 <= k < i ==> #[trigger] keys@[k] == seq_keys(self.entries@)[k],
            decreases n - i,
        {
            keys.push((self.entries[i].1.seq, 0, 0, 0));
            i = i + 1;
        }
        assert(keys@ =~= seq_keys(self.entries@));
        let order = sorting::sort_order(&keys);
        let mut out = text::chars_of(REVIEW_HEADER);
        text::extend_str(&mut out, "\r\n");
        let ghost head = out@;
        let mut i: usize = 0;
        assert(head + rows_text(self.entries@, order@, 0) =~= head);
        while i < n
            invariant
                i <= n,
                n == self.entries@.len(),
                sorting::is_order(seq_keys(self.entries@), order@, 0, n as int),
                out@ == head + rows_text(self.entries@, order@, i as int),
            decreases n - i,
        {
            let e = self.entries[order[i]];
            let line = entry_line(&e);
            push_row(&mut out, &line);
            assert(out@ =~= head + rows_text(self.entries@, order@, i as int + 1));
            i = i + 1;
        }
        text::string_of(&out)
    }
}

// ---- reading --------------------------------------------------------------------------

/// Why a `review.csv` could not be read back.
#[derive(Clone, Debug, PartialEq, Eq)]
pub enum TriageError {
    /// A row is no decision.
    Malformed {
        /// Number of the row, the header being one.
        line: usize,
        /// What is wrong.
        reason: String,
    },
    /// The header lacks a column.
    MissingColumn(String),
}

/// The contents of an error.
pub enum TriageFault {
    /// A row is no decision.
    Malformed {
        /// Number of the row.
        line: int,
        /// What is wrong.
        reason: Seq<char>,
    },
    /// The header lacks a column.
    MissingColumn(Seq<char>),
}

/// The contents of an error.
pub open spec fn fault_of(e: TriageError) -> TriageFault {
    match e {
        TriageError::Malformed { line, reason } => TriageFault::Malformed {
            line: line as int,
            reason: reason@,
        },
        TriageError::MissingColumn(name) => TriageFault::MissingColumn(name@),
    }
}

impl TriageError {
    /// The error as text.
    pub fn message(&self) -> (r: String)
        ensures
            r@ == (match *self {
                TriageError::Malformed { line, reason } => "line "@ + text::decimal(line as nat) + ": "@
                    + reason@,
                TriageError::MissingColumn(name) => "missing column `"@ + name@ + "`"@,
            }),
    {
        match self {
            TriageError::Malformed { line, reason } => {
                let mut s = String::from_str("line ");
                text::push_decimal(&mut s, *line as u64);
                s.append(": ");
                s.append(reason.as_str());
                s
            },
            TriageError::MissingColumn(name) => {
                let mut s = String::from_str("missing column `");
                s.append(name.as_str());
                s.append("`");
                s
            },
        }
    }
}

/// The message of a table fault.
pub open spec fn table_fault_text(f: CsvFault) -> Seq<char> {
    match f {
        CsvFault::OpenQuote => "unterminated quoted field"@,
        CsvFault::AfterQuote => "text after a quoted field"@,
    }
}

/// The first column with a name, from `i` on.
pub open spec fn column_from(header: Seq<Seq<char>>, name: Seq<char>, i: int) -> Option<int>
    decreases header.len() - i,
{
    if i >= header.len() {
        None
    } else if header[i] == name {
        Some(i)
    } else {
        column_from(header, name, i + 1)
    }
}

/// Where the four columns stand.
pub struct Columns {
    /// Sequence number.
    pub seq: usize,
    /// Icon.
    pub id: usize,
    /// Action.
    pub action: usize,
    /// Time.
    pub at: usize,
}

/// The columns of a header; the first one missing is named.
pub open spec fn columns_of(header: Seq<Seq<char>>) -> Result<(int, int, int, int), Seq<char>> {
    match column_from(header, "seq"@, 0) {
        None => Err("seq"@),
        Some(a) => match column_from(header, "id"@, 0) {
            None => Err("id"@),
            Some(b) => match column_from(header, "action"@, 0) {
                None => Err("action"@),
                Some(c) => match column_from(header, "at_ms"@, 0) {
                    None => Err("at_ms"@),
                    Some(d) => Ok((a, b, c, d)),
                },
            },
        },
    }
}

/// The largest sequence number that leaves room for the next one.
pub const MAX_SEQ: u64 = 0xffff_ffff_ffff_fffe;

/// The number in column `at` of a row, or what is wrong with it.
pub open spec fn number_in(row: Seq<Seq<char>>, at: int, limit: int, name: Seq<char>) -> Result<int, Seq<char>> {
    if at >= row.len() {
        Err("only "@ + text::decimal(row.len()) + " fields"@)
    } else {
        match text::number_of(row[at], limit) {
            Ok(v) => Ok(v),
            Err(f) => Err(name + text::fault_text(f)),
        }
    }
}

/// The action in column `at` of a row, or what is wrong with it.
pub open spec fn action_in(row: Seq<Seq<char>>, at: int) -> Result<TriageAction, Seq<char>> {
    if at >= row.len() {
        Err("only "@ + text::decimal(row.len()) + " fields"@)
    } else {
        match action_named(row[at]) {
            Some(a) => Ok(a),
            None => Err("action `"@ + row[at] + "`"@),
        }
    }
}

/// The entry of a row, or the first thing wrong with it.
pub open spec fn entry_in(row: Seq<Seq<char>>, c: (int, int, int, int)) -> Result<Entry, Seq<char>> {
    match number_in(row, c.0, MAX_SEQ as int, "seq: "@) {
        Err(r) => Err(r),
        Ok(seq) => match number_in(row, c.1, u32::MAX as int, "id: "@) {
            Err(r) => Err(r),
            Ok(id) => match action_in(row, c.2) {
                Err(r) => Err(r),
                Ok(action) => match number_in(row, c.3, u64::MAX as int, "at_ms: "@) {
                    Err(r) => Err(r),
                    Ok(at) => Ok(
                        (id as u32, TriageDecision { action, seq: seq as u64, at_ms: at as u64 }),
                    ),
                },
            },
        },
    }
}

/// The decisions and the next number after rows `k..`; a later row for an icon
/// wins.
pub open spec fn log_from(
    rows: Seq<Seq<Seq<char>>>,
    c: (int, int, int, int),
    k: int,
    m: Map<u32, TriageDecision>,
    next: int,
) -> Result<(Map<u32, TriageDecision>, int), TriageFault>
    decreases rows.len() - k,
{
    if k >= rows.len() {
        Ok((m, next))
    } else {
        match entry_in(rows[k], c) {
            Err(reason) => Err(TriageFault::Malformed { line: k + 1, reason }),
            Ok(e) => log_from(
                rows,
                c,
                k + 1,
                m.insert(e.0, e.1),
                if e.1.seq + 1 > next {
                    e.1.seq + 1
                } else {
                    next
                },
            ),
        }
    }
}

/// The decisions and the next number that a table states.
pub open spec fn log_of(s: Seq<char>) -> Result<(Map<u32, TriageDecision>, int), TriageFault> {
    match csv::rows_from(s, 0, Seq::empty()) {
        Err(f) => Err(TriageFault::Malformed { line: 1, reason: table_fault_text(f) }),
        Ok(rows) => if rows.len() == 0 {
            Err(TriageFault::MissingColumn("seq"@))
        } else {
            match columns_of(rows[0]) {
                Err(name) => Err(TriageFault::MissingColumn(name)),
                Ok(c) => log_from(rows, c, 1, Map::empty(), 0),
            }
        },
    }
}

fn find_column(header: &Vec<Vec<char>>, name: &str) -> (r: Option<usize>)
    ensures
        match r {
            Some(i) => column_from(csv::row_view(header@), name@, 0) == Some(i as int),
            None => column_from(csv::row_view(header@), name@, 0) is None,
        },
{
    let n: usize = header.len();
    let wanted = text::chars_of(name);
    let mut i: usize = 0;
    while i < n
        invariant
            i <= n,
            n == header@.len(),
            wanted@ == name@,
            column_from(csv::row_view(header@), name@, 0) == column_from(
                csv::row_view(header@),
                name@,
                i as int,
            ),
        decreases n - i,
    {
        assert(csv::row_view(header@)[i as int] == header@[i as int]@);
        if text::same(&header[i], &wanted) {
            return Some(i);
        }
        i = i + 1;
    }
    None
}

/// Finds the four columns.
fn find_columns(header: &Vec<Vec<char>>) -> (r: Result<Columns, String>)
    ensures
        match r {
            Ok(c) => columns_of(csv::row_view(header@)) == Ok::<(int, int, int, int), Seq<char>>(
                (c.seq as int, c.id as int, c.action as int, c.at as int),
            ),
            Err(name) => columns_of(csv::row_view(header@)) == Err::<(int, int, int, int), Seq<char>>(
                name@,
            ),
        },
{
    let seq: usize = match find_column(header, "seq") {
        Some(i) => i,
        None => {
            return Err(String::from_str("seq"));
        },
    };
    let id: usize = match find_column(header, "id") {
        Some(i) => i,
        None => {
            return Err(String::from_str("id"));
        },
    };
    let action: usize = match find_column(header, "action") {
        Some(i) => i,
        None => {
            return Err(String::from_str("action"));
        },
    };
    let at: usize = match find_column(header, "at_ms") {
        Some(i) => i,
        None => {
            return Err(String::from_str("at_ms"));
        },
    };
    Ok(Columns { seq, id, action, at })
}

fn too_few(row: &Vec<Vec<char>>) -> (r: String)
    ensures
        r@ == "only "@ + text::decimal(row@.len()) + " fields"@,
{
    let n: usize = row.len();
    let mut s = String::from_str("only ");
    text::push_decimal(&mut s, n as u64);
    s.append(" fields");
    s
}

fn read_number(row: &Vec<Vec<char>>, at: usize, limit: u64, name: &str) -> (r: Result<u64, String>)
    ensures
        match r {
            Ok(v) => number_in(csv::row_view(row@), at as int, limit as int, name@) == Ok::<int, Seq<char>>(
                v as int,
            ) && v <= limit,
            Err(e) => number_in(csv::row_view(row@), at as int, limit as int, name@) == Err::<
                int,
                Seq<char>,
            >(e@),
        },
{
    if at >= row.len() {
        return Err(too_few(row));
    }
    assert(csv::row_view(row@)[at as int] == row@[at as int]@);
    match text::parse_number(&row[at], limit) {
        Ok(v) => Ok(v),
        Err(f) => {
            let mut s = String::from_str(name);
            s.append(f.message());
            Err(s)
        },
    }
}

fn read_action(row: &Vec<Vec<char>>, at: usize) -> (r: Result<TriageAction, String>)
    ensures
        match r {
            Ok(v) => action_in(csv::row_view(row@), at as int) == Ok::<TriageAction, Seq<char>>(v),
            Err(e) => action_in(csv::row_view(row@), at as int) == Err::<TriageAction, Seq<char>>(e@),
        },
{
    if at >= row.len() {
        return Err(too_few(row));
    }
    assert(csv::row_view(row@)[at as int] == row@[at as int]@);
    let name = text::string_of(&row[at]);
    match TriageAction::parse(name.as_str()) {
        Some(a) => Ok(a),
        None => {
            let mut s = String::from_str("action `");
            s.append(name.as_str());
            s.append("`");
            Err(s)
        },
    }
}

fn read_entry(row: &Vec<Vec<char>>, c: &Columns) -> (r: Result<Entry, String>)
    ensures
        match r {
            Ok(e) => entry_in(
                csv::row_view(row@),
                (c.seq as int, c.id as int, c.action as int, c.at as int),
            ) == Ok::<Entry, Seq<char>>(e) && e.1.seq <= MAX_SEQ,
            Err(m) => entry_in(
                csv::row_view(row@),
                (c.seq as int, c.id as int, c.action as int, c.at as int),
            ) == Err::<Entry, Seq<char>>(m@),
        },
{
    let seq: u64 = match read_number(row, c.seq, MAX_SEQ, "seq: ") {
        Ok(v) => v,
        Err(e) => {
            return Err(e);
        },
    };
    let id: u64 = match read_number(row, c.id, 0xffff_ffff, "id: ") {
        Ok(v) => v,
        Err(e) => {
            return Err(e);
        },
    };
    let action = match read_action(row, c.action) {
        Ok(v) => v,
        Err(e) => {
            return Err(e);
        },
    };
    let at_ms: u64 = match read_number(row, c.at, 0xffff_ffff_ffff_ffff, "at_ms: ") {
        Ok(v) => v,
        Err(e) => {
            return Err(e);
        },
    };
    Ok((id as u32, TriageDecision { action, seq, at_ms }))
}

impl TriageLog {
    /// Reads a log out of a table. The history starts empty, and the numbers go
    /// on after the highest one seen.
    pub fn from_csv(input: &str) -> (r: Result<TriageLog, TriageError>)
        ensures
            match r {
                Ok(log) => log.wf() && log.history@.len() == 0 && log_of(input@) == Ok::<
                    (Map<u32, TriageDecision>, int),
                    TriageFault,
                >((log@, log.next_seq as int)),
                Err(e) => log_of(input@) == Err::<(Map<u32, TriageDecision>, int), TriageFault>(
                    fault_of(e),
                ),
            },
    {
        let s = text::chars_of(input);
        let rows = match csv::parse_csv(&s) {
            Ok(t) => t,
            Err(f) => {
                let reason = match f {
                    CsvFault::OpenQuote => String::from_str("unterminated quoted field"),
                    CsvFault::AfterQuote => String::from_str("text after a quoted field"),
                };
                return Err(TriageError::Malformed { line: 1, reason });
            },
        };
        let n: usize = rows.len();
        let ghost table = csv::table_view(rows@);
        if n == 0 {
            return Err(TriageError::MissingColumn(String::from_str("seq")));
        }
        assert(table[0] == csv::row_view(rows@[0]@));
        let c = match find_columns(&rows[0]) {
            Ok(v) => v,
            Err(name) => {
                return Err(TriageError::MissingColumn(name));
            },
        };
        let ghost cols = (c.seq as int, c.id as int, c.action as int, c.at as int);
        let mut entries: Vec<Entry> = Vec::new();
        let mut next_seq: u64 = 0;
        let mut k: usize = 1;
        assert(map_of(entries@) =~= Map::<u32, TriageDecision>::empty());
        while k < n
            invariant
                1 <= k <= n,
                n == rows@.len(),
                table == csv::table_view(rows@),
                cols == (c.seq as int, c.id as int, c.action as int, c.at as int),
                ascending(entries@),
                forall|i: int| 0 <= i < entries@.len() ==> (#[trigger] entries@[i]).1.seq < next_seq,
                log_of(input@) == log_from(table, cols, k as int, map_of(entries@), next_seq as int),
            decreases n - k,
        {
            assert(table[k as int] == csv::row_view(rows@[k as int]@));
            match read_entry(&rows[k], &c) {
                Ok(e) => {
                    let ghost e0 = entries@;
                    let next: u64 = if e.1.seq + 1 > next_seq {
                        e.1.seq + 1
                    } else {
                        next_seq
                    };
                    put(&mut entries, e.0, e.1);
                    proof {
                        assert forall|i: int| 0 <= i < entries@.len() implies (
                        #[trigger] entries@[i]).1.seq < next by {
                            entry_at(entries@, i);
                            let id = entries@[i].0;
                            if id != e.0 {
                                assert(map_of(e0).contains_key(id));
                                let j = choose|j: int|
                                    0 <= j < e0.len() && (#[trigger] e0[j]).0 == id;
                                entry_at(e0, j);
                            }
                        }
                    }
                    next_seq = next;
                },
                Err(reason) => {
                    return Err(TriageError::Malformed { line: k + 1, reason });
                },
            }
            k = k + 1;
        }
        Ok(TriageLog { entries, history: Vec::new(), next_seq })
    }
}

// ---- what is written reads back ---------------------------------------------------------

/// The fields of an entry.
pub open spec fn fields_of(e: Entry) -> Seq<Seq<char>> {
    seq![
        text::decimal(e.1.seq as nat),
        text::decimal(e.0 as nat),
        action_name(e.1.action),
        text::decimal(e.1.at_ms as nat),
    ]
}

proof fn decimal_is_bare(n: nat)
    ensures
        csv::is_bare(text::decimal(n)),
        text::decimal(n).len() > 0,
{
    text::decimal_is_digits(n);
    assert forall|i: int| 0 <= i < text::decimal(n).len() implies csv::is_bare_char(
        #[trigger] text::decimal(n)[i],
    ) by {
        assert(text::is_digit(text::decimal(n)[i]));
    }
}

proof fn name_is_bare(a: TriageAction)
    ensures
        csv::is_bare(action_name(a)),
        action_name(a).len() > 0,
{
    reveal_strlit("approve");
    reveal_strlit("reject");
    reveal_strlit("flag");
    reveal_strlit("duplicate");
    reveal_strlit("bulk-approve");
}

/// Four bare fields on a line read as one row.
proof fn line_is_row(s: Seq<char>, i: int, a: Seq<char>, b: Seq<char>, c: Seq<char>, d: Seq<char>)
    requires
        csv::is_bare(a),
        csv::is_bare(b),
        csv::is_bare(c),
        csv::is_bare(d),
        a.len() > 0,
        b.len() > 0,
        c.len() > 0,
        d.len() > 0,
        0 <= i,
        text::matches_at(s, a + ","@ + b + ","@ + c + ","@ + d + "\r\n"@, i),
    ensures
        csv::row_at(s, i, Seq::empty()) == Ok::<(Seq<Seq<char>>, int), CsvFault>(
            (seq![a, b, c, d], i + (a + ","@ + b + ","@ + c + ","@ + d + "\r\n"@).len()),
        ),
{
    reveal_strlit(",");
    reveal_strlit("\r\n");
    let all = a + ","@ + b + ","@ + c + ","@ + d + "\r\n"@;
    let sub = s.subrange(i, i + all.len());
    assert(sub == all);
    let i1 = i + a.len();
    let i2 = i1 + 1 + b.len();
    let i3 = i2 + 1 + c.len();
    let i4 = i3 + 1 + d.len();
    assert(s[i1] == sub[i1 - i]);
    assert(s[i2] == sub[i2 - i]);
    assert(s[i3] == sub[i3 - i]);
    assert(s[i4] == sub[i4 - i]);
    assert(s[i4 + 1] == sub[i4 + 1 - i]);
    assert(s[i1] == ',' && s[i2] == ',' && s[i3] == ',' && s[i4] == '\r' && s[i4 + 1] == '\n');
    assert(text::matches_at(s, a, i)) by {
        assert(s.subrange(i, i1) =~= a) by {
            assert forall|k: int| 0 <= k < a.len() implies s.subrange(i, i1)[k] == a[k] by {
                assert(sub[k] == all[k]);
            }
        }
    }
    assert(text::matches_at(s, b, i1 + 1)) by {
        assert(s.subrange(i1 + 1, i2) =~= b) by {
            assert forall|k: int| 0 <= k < b.len() implies s.subrange(i1 + 1, i2)[k] == b[k] by {
                assert(sub[i1 + 1 - i + k] == all[i1 + 1 - i + k]);
            }
        }
    }
    assert(text::matches_at(s, c, i2 + 1)) by {
        assert(s.subrange(i2 + 1, i3) =~= c) by {
            assert forall|k: int| 0 <= k < c.len() implies s.subrange(i2 + 1, i3)[k] == c[k] by {
                assert(sub[i2 + 1 - i + k] == all[i2 + 1 - i + k]);
            }
        }
    }
    assert(text::matches_at(s, d, i3 + 1)) by {
        assert(s.subrange(i3 + 1, i4) =~= d) by {
            assert forall|k: int| 0 <= k < d.len() implies s.subrange(i3 + 1, i4)[k] == d[k] by {
                assert(sub[i3 + 1 - i + k] == all[i3 + 1 - i + k]);
            }
        }
    }
    csv::bare_field_is_read(s, i, a);
    csv::bare_field_is_read(s, i1 + 1, b);
    csv::bare_field_is_read(s, i2 + 1, c);
    csv::bare_field_is_read(s, i3 + 1, d);
    let r0 = Seq::<Seq<char>>::empty();
    let r1 = r0.push(a);
    let r2 = r1.push(b);
    let r3 = r2.push(c);
    let r4 = r3.push(d);
    assert(csv::row_at(s, i3 + 1, r3) == Ok::<(Seq<Seq<char>>, int), CsvFault>((r4, i4 + 2)));
    assert(csv::row_at(s, i2 + 1, r2) == csv::row_at(s, i3 + 1, r3));
    assert(csv::row_at(s, i1 + 1, r1) == csv::row_at(s, i2 + 1, r2));
    assert(csv::row_at(s, i, r0) == csv::row_at(s, i1 + 1, r1));
    assert(r4 =~= seq![a, b, c, d]);
}

/// An entry's row is its line, unquoted.
proof fn row_is_plain(e: Entry)
    ensures
        row_text(line_of(e)) == text::decimal(e.1.seq as nat) + ","@ + text::decimal(e.0 as nat) + ","@
            + action_name(e.1.action) + ","@ + text::decimal(e.1.at_ms as nat) + "\r\n"@,
{
    reveal_strlit(",");
    decimal_is_bare(e.1.seq as nat);
    decimal_is_bare(e.0 as nat);
    decimal_is_bare(e.1.at_ms as nat);
    name_is_bare(e.1.action);
    let line = line_of(e);
    let a = text::decimal(e.1.seq as nat);
    let b = text::decimal(e.0 as nat);
    let c = action_name(e.1.action);
    let d = text::decimal(e.1.at_ms as nat);
    assert forall|i: int| 0 <= i < line.len() implies (#[trigger] line[i]) != '"' && line[i] != '\n'
        && line[i] != '\r' by {
        let i1 = a.len() as int;
        let i2 = i1 + 1 + b.len();
        let i3 = i2 + 1 + c.len();
        if i < i1 {
            assert(line[i] == a[i] && csv::is_bare_char(a[i]));
        } else if i == i1 {
            assert(line[i] == ',');
        } else if i < i2 {
            assert(line[i] == b[i - i1 - 1] && csv::is_bare_char(b[i - i1 - 1]));
        } else if i == i2 {
            assert(line[i] == ',');
        } else if i < i3 {
            assert(line[i] == c[i - i2 - 1] && csv::is_bare_char(c[i - i2 - 1]));
        } else if i == i3 {
            assert(line[i] == ',');
        } else {
            assert(line[i] == d[i - i3 - 1] && csv::is_bare_char(d[i - i3 - 1]));
        }
    }
    assert(!needs_quotes(line));
}

/// Earlier rows are the beginning of all rows.
proof fn rows_prefix(es: Seq<Entry>, order: Seq<usize>, k: int, n: int)
    requires
        0 <= k <= n,
    ensures
        rows_text(es, order, k).len() <= rows_text(es, order, n).len(),
        rows_text(es, order, n).subrange(0, rows_text(es, order, k).len() as int) == rows_text(
            es,
            order,
            k,
        ),
    decreases n,
{
    if k < n {
        rows_prefix(es, order, k, n - 1);
        let a = rows_text(es, order, n - 1);
        let b = rows_text(es, order, n);
        let p = rows_text(es, order, k);
        assert(b.subrange(0, p.len() as int) =~= a.subrange(0, p.len() as int));
    } else {
        let a = rows_text(es, order, n);
        assert(a.subrange(0, a.len() as int) =~= a);
    }
}

/// The fields of the entries `k..n` in order.
spec fn field_rows(es: Seq<Entry>, order: Seq<usize>, k: int, n: int) -> Seq<Seq<Seq<char>>> {
    Seq::new((n - k) as nat, |t: int| fields_of(es[order[k + t] as int]))
}

/// The rows behind the header read as the fields of the entries.
proof fn rows_read(es: Seq<Entry>, order: Seq<usize>, head: Seq<char>, n: int, k: int, acc: Seq<Seq<Seq<char>>>)
    requires
        0 <= k <= n,
    ensures
        csv::rows_from(
            head + rows_text(es, order, n),
            (head.len() + rows_text(es, order, k).len()) as int,
            acc,
        ) == Ok::<Seq<Seq<Seq<char>>>, CsvFault>(acc + field_rows(es, order, k, n)),
    decreases n - k,
{
    let s = head + rows_text(es, order, n);
    let i = (head.len() + rows_text(es, order, k).len()) as int;
    if k == n {
        assert(acc + field_rows(es, order, k, n) =~= acc);
    } else {
        let e = es[order[k] as int];
        rows_prefix(es, order, k + 1, n);
        rows_prefix(es, order, k, n);
        row_is_plain(e);
        decimal_is_bare(e.1.seq as nat);
        decimal_is_bare(e.0 as nat);
        decimal_is_bare(e.1.at_ms as nat);
        name_is_bare(e.1.action);
        let row = row_text(line_of(e));
        let all = rows_text(es, order, n);
        let p = rows_text(es, order, k);
        let q = rows_text(es, order, k + 1);
        assert(q == p + row);
        assert(s.subrange(i, i + row.len()) =~= row) by {
            assert forall|t: int| 0 <= t < row.len() implies s.subrange(i, i + row.len())[t] == row[t] by {
                assert(s[i + t] == all[p.len() + t]);
                assert(all.subrange(0, q.len() as int)[p.len() + t] == q[p.len() + t]);
            }
        }
        line_is_row(
            s,
            i,
            text::decimal(e.1.seq as nat),
            text::decimal(e.0 as nat),
            action_name(e.1.action),
            text::decimal(e.1.at_ms as nat),
        );
        rows_read(es, order, head, n, k + 1, acc.push(fields_of(e)));
        assert(acc.push(fields_of(e)) + field_rows(es, order, k + 1, n) =~= acc + field_rows(
            es,
            order,
            k,
            n,
        ));
    }
}

/// The fields of an entry read as the entry.
proof fn entry_reads_back(e: Entry)
    requires
        e.1.seq <= MAX_SEQ,
    ensures
        entry_in(fields_of(e), (0, 1, 2, 3)) == Ok::<Entry, Seq<char>>(e),
{
    text::decimal_round_trip(e.1.seq as nat, MAX_SEQ as int);
    text::decimal_round_trip(e.0 as nat, u32::MAX as int);
    text::decimal_round_trip(e.1.at_ms as nat, u64::MAX as int);
    names_round_trip(e.1.action);
}

/// The entries that the first `k` of the order put into a map.
spec fn put_upto(es: Seq<Entry>, order: Seq<usize>, k: int) -> Map<u32, TriageDecision>
    decreases k,
{
    if k <= 0 {
        Map::empty()
    } else {
        let e = es[order[k - 1] as int];
        put_upto(es, order, k - 1).insert(e.0, e.1)
    }
}

/// One more than the highest of the first `k` numbers, or zero.
pub open spec fn next_upto(es: Seq<Entry>, order: Seq<usize>, k: int) -> int
    decreases k,
{
    if k <= 0 {
        0
    } else {
        let e = es[order[k - 1] as int];
        let before = next_upto(es, order, k - 1);
        if e.1.seq + 1 > before {
            e.1.seq + 1
        } else {
            before
        }
    }
}

proof fn log_reads(es: Seq<Entry>, order: Seq<usize>, rows: Seq<Seq<Seq<char>>>, n: int, k: int, next: int)
    requires
        n == es.len(),
        order.len() == n,
        0 <= k <= n,
        rows.len() == n + 1,
        forall|t: int| 0 <= t < n ==> 0 <= #[trigger] order[t] < n,
        forall|t: int| 0 <= t < n ==> #[trigger] rows[t + 1] == fields_of(es[order[t] as int]),
        forall|i: int| 0 <= i < n ==> (#[trigger] es[i]).1.seq <= MAX_SEQ,
        next == next_upto(es, order, k),
    ensures
        log_from(rows, (0, 1, 2, 3), k + 1, put_upto(es, order, k), next) == Ok::<
            (Map<u32, TriageDecision>, int),
            TriageFault,
        >((put_upto(es, order, n), next_upto(es, order, n))),
    decreases n - k,
{
    if k < n {
        let e = es[order[k] as int];
        assert(rows[k + 1] == fields_of(e));
        entry_reads_back(e);
        log_reads(es, order, rows, n, k + 1, next_upto(es, order, k + 1));
    }
}

/// Putting all entries into a map in any order gives the map of the entries.
proof fn put_all(es: Seq<Entry>, order: Seq<usize>, k: int)
    requires
        ascending(es),
        order.len() == es.len(),
        0 <= k <= es.len(),
        forall|t: int| 0 <= t < es.len() ==> 0 <= #[trigger] order[t] < es.len(),
    ensures
        forall|id: u32|
            #![trigger put_upto(es, order, k).contains_key(id)]
            put_upto(es, order, k).contains_key(id) <==> exists|t: int|
                0 <= t < k && es[(#[trigger] order[t]) as int].0 == id,
        forall|id: u32| #[trigger]
            put_upto(es, order, k).contains_key(id) ==> map_of(es).contains_key(id)
                && put_upto(es, order, k)[id] == map_of(es)[id],
    decreases k,
{
    if k > 0 {
        put_all(es, order, k - 1);
        let at = order[k - 1] as int;
        let e = es[at];
        entry_at(es, at);
        let m = put_upto(es, order, k);
        assert forall|id: u32| #![trigger m.contains_key(id)] m.contains_key(id) <==> exists|t: int|
            0 <= t < k && es[(#[trigger] order[t]) as int].0 == id by {
            if m.contains_key(id) && id != e.0 {
                assert(put_upto(es, order, k - 1).contains_key(id));
                let t = choose|t: int| 0 <= t < k - 1 && es[(#[trigger] order[t]) as int].0 == id;
                assert(0 <= t < k && es[order[t] as int].0 == id);
            }
            if id == e.0 {
                assert(es[order[k - 1] as int].0 == id);
            }
            if exists|t: int| 0 <= t < k && es[(#[trigger] order[t]) as int].0 == id {
                let t = choose|t: int| 0 <= t < k && es[(#[trigger] order[t]) as int].0 == id;
                if t < k - 1 {
                    assert(put_upto(es, order, k - 1).contains_key(id));
                }
            }
        }
        assert forall|id: u32| #[trigger] m.contains_key(id) implies map_of(es).contains_key(id) && m[id]
            == map_of(es)[id] by {
            if id != e.0 {
                assert(put_upto(es, order, k - 1).contains_key(id));
            }
        }
    }
}

proof fn next_bound(es: Seq<Entry>, order: Seq<usize>, k: int, limit: int)
    requires
        order.len() == es.len(),
        0 <= k <= es.len(),
        0 <= limit,
        forall|t: int| 0 <= t < es.len() ==> 0 <= #[trigger] order[t] < es.len(),
        forall|i: int| 0 <= i < es.len() ==> (#[trigger] es[i]).1.seq < limit,
    ensures
        0 <= next_upto(es, order, k) <= limit,
        forall|t: int| 0 <= t < k ==> es[(#[trigger] order[t]) as int].1.seq < next_upto(es, order, k),
        k > 0 ==> exists|t: int|
            0 <= t < k && es[(#[trigger] order[t]) as int].1.seq + 1 == next_upto(es, order, k),
    decreases k,
{
    if k > 0 {
        next_bound(es, order, k - 1, limit);
        let e = es[order[k - 1] as int];
        assert(e.1.seq < limit);
        if e.1.seq + 1 <= next_upto(es, order, k - 1) {
            let t = choose|t: int|
                0 <= t < k - 1 && es[(#[trigger] order[t]) as int].1.seq + 1 == next_upto(
                    es,
                    order,
                    k - 1,
                );
            assert(es[order[t] as int].1.seq + 1 == next_upto(es, order, k));
        }
    }
}

proof fn header_row(s: Seq<char>)
    requires
        text::matches_at(s, REVIEW_HEADER@ + "\r\n"@, 0),
    ensures
        csv::row_at(s, 0, Seq::empty()) == Ok::<(Seq<Seq<char>>, int), CsvFault>(
            (seq!["seq"@, "id"@, "action"@, "at_ms"@], (REVIEW_HEADER@ + "\r\n"@).len() as int),
        ),
        columns_of(seq!["seq"@, "id"@, "action"@, "at_ms"@]) == Ok::<(int, int, int, int), Seq<char>>(
            (0, 1, 2, 3),
        ),
        (REVIEW_HEADER@ + "\r\n"@).len() > 0,
{
    reveal_strlit("seq,id,action,at_ms");
    reveal_strlit("seq");
    reveal_strlit("id");
    reveal_strlit("action");
    reveal_strlit("at_ms");
    reveal_strlit(",");
    reveal_strlit("\r\n");
    let whole = "seq"@ + ","@ + "id"@ + ","@ + "action"@ + ","@ + "at_ms"@ + "\r\n"@;
    assert(REVIEW_HEADER@ + "\r\n"@ =~= whole);
    line_is_row(s, 0, "seq"@, "id"@, "action"@, "at_ms"@);
    let h = seq!["seq"@, "id"@, "action"@, "at_ms"@];
    assert("seq"@.len() == 3 && "id"@.len() == 2 && "action"@.len() == 6 && "at_ms"@.len() == 5);
    assert(column_from(h, "seq"@, 0) == Some(0int));
    assert(column_from(h, "id"@, 1) == Some(1int));
    assert(column_from(h, "id"@, 0) == Some(1int));
    assert(column_from(h, "action"@, 2) == Some(2int));
    assert(column_from(h, "action"@, 1) == Some(2int));
    assert(column_from(h, "action"@, 0) == Some(2int));
    assert(column_from(h, "at_ms"@, 3) == Some(3int));
    assert(column_from(h, "at_ms"@, 2) == Some(3int));
    assert(column_from(h, "at_ms"@, 1) == Some(3int));
    assert(column_from(h, "at_ms"@, 0) == Some(3int));
}

/// The number after the highest one in use; zero where there is none.
pub open spec fn is_next_after(es: Seq<Entry>, next: int) -> bool {
    &&& forall|i: int| 0 <= i < es.len() ==> (#[trigger] es[i]).1.seq < next
    &&& if es.len() == 0 {
        next == 0
    } else {
        exists|i: int| 0 <= i < es.len() && (#[trigger] es[i]).1.seq + 1 == next
    }
}

/// What a log writes reads back as the same decisions, and the numbers go on
/// right after the highest one.
pub proof fn table_reads_back(log: TriageLog, out: Seq<char>)
    requires
        log.wf(),
        log.entries@.len() < usize::MAX,
        is_table(log.entries@, out),
    ensures
        match log_of(out) {
            Ok((m, next)) => {
                &&& m == log@
                &&& is_next_after(log.entries@, next)
            },
            Err(_) => false,
        },
{
    let es = log.entries@;
    let n = es.len() as int;
    let order = choose|order: Seq<usize>| #[trigger]
        sorting::is_order(seq_keys(es), order, 0, n) && out == REVIEW_HEADER@ + "\r\n"@ + rows_text(
            es,
            order,
            n,
        );
    let head = REVIEW_HEADER@ + "\r\n"@;
    assert(out.subrange(0, head.len() as int) =~= head);
    header_row(out);
    let h = seq!["seq"@, "id"@, "action"@, "at_ms"@];
    let first = Seq::<Seq<Seq<char>>>::empty().push(h);
    rows_read(es, order, head, n, 0, first);
    let rows = first + field_rows(es, order, 0, n);
    assert(csv::rows_from(out, 0, Seq::empty()) == Ok::<Seq<Seq<Seq<char>>>, CsvFault>(rows)) by {
        assert(csv::rows_from(out, 0, Seq::empty()) == csv::rows_from(
            out,
            head.len() as int,
            first,
        ));
    }
    assert(rows[0] == h);
    assert forall|t: int| 0 <= t < n implies #[trigger] rows[t + 1] == fields_of(es[order[t] as int]) by {
        assert(field_rows(es, order, 0, n)[t] == fields_of(es[order[0 + t] as int]));
    }
    log_reads(es, order, rows, n, 0, 0);
    put_all(es, order, n);
    next_bound(es, order, n, log.next_seq as int);
    let m = put_upto(es, order, n);
    assert forall|id: u32| m.contains_key(id) == #[trigger] log@.contains_key(id) by {
        if has_entry(es, id) {
            let i = choose|i: int| 0 <= i < es.len() && (#[trigger] es[i]).0 == id;
            assert(order.contains(i as usize));
            let t = choose|t: int| 0 <= t < order.len() && order[t] == i as usize;
            assert(es[order[t] as int].0 == id);
        }
    }
    assert(m =~= log@);
    assert forall|i: int| 0 <= i < n implies (#[trigger] es[i]).1.seq < next_upto(es, order, n) by {
        assert(order.contains(i as usize));
        let t = choose|t: int| 0 <= t < order.len() && order[t] == i as usize;
        assert(es[order[t] as int].1.seq < next_upto(es, order, n));
    }
    if n > 0 {
        let t = choose|t: int|
            0 <= t < n && es[(#[trigger] order[t]) as int].1.seq + 1 == next_upto(es, order, n);
        assert(es[order[t] as int].1.seq + 1 == next_upto(es, order, n));
    }
}

/// A log that is written and read again holds the same decisions, writes the
/// same table, has nothing to undo, and goes on right after its highest number.
pub proof fn table_round_trips(log: TriageLog, out: Seq<char>, back: TriageLog, again: Seq<char>)
    requires
        log.wf(),
        log.entries@.len() < usize::MAX,
        is_table(log.entries@, out),
        back.wf(),
        back.history@.len() == 0,
        log_of(out) == Ok::<(Map<u32, TriageDecision>, int), TriageFault>((back@, back.next_seq as int)),
        is_table(back.entries@, again),
    ensures
        forall|id: u32| #[trigger] lookup(back@, id) == lookup(log@, id),
        back.entries@ == log.entries@,
        again == out,
        is_next_after(log.entries@, back.next_seq as int),
{
    table_reads_back(log, out);
    entries_are_determined(back.entries@, log.entries@);
    let es = log.entries@;
    let n = es.len() as int;
    let s = choose|order: Seq<usize>| #[trigger]
        sorting::is_order(seq_keys(es), order, 0, n) && out == REVIEW_HEADER@ + "\r\n"@ + rows_text(
            es,
            order,
            n,
        );
    let t = choose|order: Seq<usize>| #[trigger]
        sorting::is_order(seq_keys(es), order, 0, n) && again == REVIEW_HEADER@ + "\r\n"@ + rows_text(
            es,
            order,
            n,
        );
    sorting::order_is_unique(seq_keys(es), s, t, 0, n);
}

// ---- sessions -----------------------------------------------------------------------

/// One thing done to a log.
pub enum SessionStep {
    /// A decision was recorded.
    Apply(u32, TriageDecision),
    /// An undo was asked for, with this answer.
    Undo(Option<(u32, Option<TriageDecision>)>),
}

/// The step leads from one log to the next.
pub open spec fn is_step(before: TriageLog, step: SessionStep, after: TriageLog) -> bool {
    after.wf() && match step {
        SessionStep::Apply(id, d) => is_applied(before, id, d, after),
        SessionStep::Undo(r) => is_undone(before, r, after),
    }
}

/// `logs` are the states of a session that starts without history and takes
/// `steps`.
pub open spec fn is_session(logs: Seq<TriageLog>, steps: Seq<SessionStep>) -> bool {
    &&& logs.len() == steps.len() + 1
    &&& logs[0].wf()
    &&& logs[0].history@.len() == 0
    &&& forall|i: int| 0 <= i < steps.len() ==> is_step(logs[i], #[trigger] steps[i], logs[i + 1])
}

/// Steps that recorded a decision.
pub open spec fn applies(steps: Seq<SessionStep>) -> spec_fn(int) -> bool {
    |i: int| steps[i] is Apply
}

/// Steps that reverted a decision.
pub open spec fn reverts(steps: Seq<SessionStep>) -> spec_fn(int) -> bool {
    |i: int| steps[i] matches SessionStep::Undo(r) && r is Some
}

/// At every point of a session the history is as long as the decisions recorded
/// outnumber those reverted. So an undo is possible exactly while they do, and
/// one that is not possible changes nothing.
pub proof fn undo_while_applies_outnumber(logs: Seq<TriageLog>, steps: Seq<SessionStep>, k: int)
    requires
        is_session(logs, steps),
        0 <= k <= steps.len(),
    ensures
        logs[k].history@.len() == counting::count_below(applies(steps), k) - counting::count_below(
            reverts(steps),
            k,
        ),
        k < steps.len() && steps[k] is Undo ==> (steps[k]->Undo_0 is Some <==> logs[k].history@.len() > 0),
        k < steps.len() && steps[k] is Undo && logs[k].history@.len() == 0 ==> logs[k + 1] == logs[k],
    decreases k,
{
    if k > 0 {
        undo_while_applies_outnumber(logs, steps, k - 1);
        assert(is_step(logs[k - 1], steps[k - 1], logs[k]));
    }
    if k < steps.len() {
        assert(is_step(logs[k], steps[k], logs[k + 1]));
    }
}

/// Over a session the next number never falls, and it lies above the number of
/// every decision in the log.
pub proof fn numbers_never_fall(logs: Seq<TriageLog>, steps: Seq<SessionStep>, i: int, j: int)
    requires
        is_session(logs, steps),
        0 <= i <= j <= steps.len(),
    ensures
        logs[i].next_seq <= logs[j].next_seq,
        forall|t: int|
            0 <= t < logs[j].entries@.len() ==> (#[trigger] logs[j].entries@[t]).1.seq < logs[j].next_seq,
        forall|id: u32|
            #[trigger] lookup(logs[j]@, id) is Some ==> lookup(logs[j]@, id)->0.seq < logs[j].next_seq,
    decreases j - i,
{
    if i < j {
        numbers_never_fall(logs, steps, i, j - 1);
        assert(is_step(logs[j - 1], steps[j - 1], logs[j]));
    }
    assert(logs[j].wf()) by {
        if j > 0 {
            assert(is_step(logs[j - 1], steps[j - 1], logs[j]));
        }
    }
    assert forall|id: u32| #[trigger] lookup(logs[j]@, id) is Some implies lookup(logs[j]@, id)->0.seq
        < logs[j].next_seq by {
        let es = logs[j].entries@;
        let t = choose|t: int| 0 <= t < es.len() && (#[trigger] es[t]).0 == id;
        entry_at(es, t);
    }
}

/// No two decisions of a session get the same number: a later one gets a higher.
pub proof fn numbers_never_repeat(logs: Seq<TriageLog>, steps: Seq<SessionStep>, i: int, j: int)
    requires
        is_session(logs, steps),
        0 <= i < j < steps.len(),
        steps[i] is Apply,
        steps[j] is Apply,
    ensures
        steps[i]->Apply_1.seq < steps[j]->Apply_1.seq,
{
    assert(is_step(logs[i], steps[i], logs[i + 1]));
    assert(is_step(logs[j], steps[j], logs[j + 1]));
    numbers_never_fall(logs, steps, i + 1, j);
}

} // verus!
