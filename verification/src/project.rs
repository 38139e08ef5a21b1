//! Saving a project so that a crash at any moment leaves a complete file.
//!
//! A project is saved into a temporary file beside it, which is made durable and
//! only then renamed over the project. The steps are taken one at a time: the
//! caller performs a step, says whether it succeeded, and is told the next one.
use vstd::prelude::*;
use crate::text;

verus! {

/// What marks a temporary file.
pub const TMP_MARKER: &'static str = ".tmp-";

/// The name of the temporary file of a process.
pub open spec fn tmp_name_of(target: Seq<char>, pid: int) -> Seq<char> {
    target + ".tmp-"@ + text::decimal(pid as nat)
}

/// The name of the temporary file that a process saves `target` into.
pub fn tmp_name(target: &str, pid: u32) -> (r: String)
    ensures
        r@ == tmp_name_of(target@, pid as int),
{
    let mut s = String::from_str(target);
    s.append(".tmp-");
    text::push_decimal(&mut s, pid as u64);
    s
}

/// The marker stands in a name.
pub open spec fn is_marked(name: Seq<char>) -> bool {
    exists|i: int| #[trigger] text::matches_at(name, ".tmp-"@, i)
}

/// A file that an earlier save of `target` left behind.
pub open spec fn is_leftover(name: Seq<char>, target: Seq<char>) -> bool {
    text::matches_at(name, target, 0) && is_marked(name)
}

/// Whether a file was left behind by an earlier save of `target`, so that it is
/// removed before the next one.
pub fn is_stale(name: &str, target: &str) -> (r: bool)
    ensures
        r == is_leftover(name@, target@),
{
    let n = text::chars_of(name);
    let t = text::chars_of(target);
    let m = text::chars_of(".tmp-");
    proof {
        text::found_stands(n@, t@, 0);
        text::found_stands(n@, m@, 0);
    }
    let starts: bool = match text::find(&n, &t, 0) {
        Some(0) => true,
        _ => false,
    };
    let marked: bool = match text::find(&n, &m, 0) {
        Some(_) => true,
        None => false,
    };
    proof {
        assert(starts == text::matches_at(n@, t@, 0));
        if !marked {
            assert forall|i: int| !#[trigger] text::matches_at(name@, ".tmp-"@, i) by {
                if i >= 0 {
                    assert(!text::matches_at(n@, m@, i));
                }
            }
        }
    }
    starts && marked
}

/// A temporary file is recognized as one, whichever process left it.
pub proof fn temporaries_are_leftovers(target: Seq<char>, pid: int)
    requires
        pid >= 0,
    ensures
        is_leftover(tmp_name_of(target, pid), target),
{
    let name = tmp_name_of(target, pid);
    assert(name.subrange(0, target.len() as int) =~= target);
    assert(text::matches_at(name, target, 0));
    let i = target.len() as int;
    let m = ".tmp-"@;
    assert(name.subrange(i, i + m.len()) =~= m);
    assert(text::matches_at(name, m, i));
}

/// A project whose own name bears no marker is never taken for a leftover.
pub proof fn projects_are_no_leftovers(target: Seq<char>)
    requires
        !is_marked(target),
    ensures
        !is_leftover(target, target),
{
}

// ---- the steps ----------------------------------------------------------------------

/// The steps of a save.
#[derive(Clone, Copy, Debug, PartialEq, Eq, Structural)]
pub enum SaveStep {
    /// Write the log back, so that the project file is complete.
    Checkpoint,
    /// Remove leftovers of earlier saves.
    RemoveLeftovers,
    /// Copy the project into the temporary file.
    Copy,
    /// Make the copy durable.
    Sync,
    /// Close the project.
    Close,
    /// Keep using the project, which could not be closed.
    PutBack,
    /// Rename the copy over the project.
    Rename,
    /// Open the new project file.
    Reopen,
    /// Open the old project file, which is untouched.
    ReopenOld,
    /// The project is saved.
    Done,
    /// It is not.
    Failed,
}

/// Where a save of an open project starts.
pub fn first_step() -> (r: SaveStep)
    ensures
        r == SaveStep::Checkpoint,
{
    SaveStep::Checkpoint
}

/// The step behind one that succeeded or not.
pub open spec fn step_after(s: SaveStep, ok: bool) -> SaveStep {
    match s {
        SaveStep::Checkpoint => if ok {
            SaveStep::RemoveLeftovers
        } else {
            SaveStep::Failed
        },
        SaveStep::RemoveLeftovers => SaveStep::Copy,
        SaveStep::Copy => if ok {
            SaveStep::Sync
        } else {
            SaveStep::Failed
        },
        SaveStep::Sync => if ok {
            SaveStep::Close
        } else {
            SaveStep::Failed
        },
        SaveStep::Close => if ok {
            SaveStep::Rename
        } else {
            SaveStep::PutBack
        },
        SaveStep::PutBack => SaveStep::Failed,
        SaveStep::Rename => if ok {
            SaveStep::Reopen
        } else {
            SaveStep::ReopenOld
        },
        SaveStep::Reopen => if ok {
            SaveStep::Done
        } else {
            SaveStep::Failed
        },
        SaveStep::ReopenOld => SaveStep::Failed,
        SaveStep::Done => SaveStep::Done,
        SaveStep::Failed => SaveStep::Failed,
    }
}

/// The next step of a save of an open project.
pub fn next_step(s: SaveStep, ok: bool) -> (r: SaveStep)
    ensures
        r == step_after(s, ok),
{
    match s {
        SaveStep::Checkpoint if ok => SaveStep::RemoveLeftovers,
        SaveStep::RemoveLeftovers => SaveStep::Copy,
        SaveStep::Copy if ok => SaveStep::Sync,
        SaveStep::Sync if ok => SaveStep::Close,
        SaveStep::Close => if ok {
            SaveStep::Rename
        } else {
            SaveStep::PutBack
        },
        SaveStep::Rename => if ok {
            SaveStep::Reopen
        } else {
            SaveStep::ReopenOld
        },
        SaveStep::Reopen if ok => SaveStep::Done,
        SaveStep::Done => SaveStep::Done,
        _ => SaveStep::Failed,
    }
}

/// Where a save under another name starts.
pub fn first_copy_step() -> (r: SaveStep)
    ensures
        r == SaveStep::RemoveLeftovers,
{
    SaveStep::RemoveLeftovers
}

/// The step behind one, in a save under another name: the project stays open.
pub open spec fn copy_step_after(s: SaveStep, ok: bool) -> SaveStep {
    match s {
        SaveStep::RemoveLeftovers => SaveStep::Checkpoint,
        SaveStep::Checkpoint if ok => SaveStep::Copy,
        SaveStep::Copy if ok => SaveStep::Sync,
        SaveStep::Sync if ok => SaveStep::Rename,
        SaveStep::Rename if ok => SaveStep::Done,
        SaveStep::Done => SaveStep::Done,
        _ => SaveStep::Failed,
    }
}

/// The next step of a save under another name.
pub fn next_copy_step(s: SaveStep, ok: bool) -> (r: SaveStep)
    ensures
        r == copy_step_after(s, ok),
{
    match s {
        SaveStep::RemoveLeftovers => SaveStep::Checkpoint,
        SaveStep::Checkpoint if ok => SaveStep::Copy,
        SaveStep::Copy if ok => SaveStep::Sync,
        SaveStep::Sync if ok => SaveStep::Rename,
        SaveStep::Rename if ok => SaveStep::Done,
        SaveStep::Done => SaveStep::Done,
        _ => SaveStep::Failed,
    }
}

// ---- what is on disk ----------------------------------------------------------------

/// What is known of a file.
#[derive(Clone, Copy, Debug, PartialEq, Eq, Structural)]
pub enum FileState {
    /// It is not there.
    Absent,
    /// It was there before the save.
    Old,
    /// Part of it is written.
    Partial,
    /// All of it is written.
    Written,
    /// All of it is written and on disk.
    Durable,
}

/// The project and the temporary file beside it.
#[derive(Clone, Copy, Debug, PartialEq, Eq, Structural)]
pub struct Disk {
    /// The project.
    pub target: FileState,
    /// The temporary file.
    pub tmp: FileState,
}

/// What a step does to the files.
pub open spec fn disk_after(d: Disk, s: SaveStep, ok: bool) -> Disk {
    match s {
        SaveStep::RemoveLeftovers => if ok {
            Disk { tmp: FileState::Absent, ..d }
        } else {
            d
        },
        SaveStep::Copy => Disk {
            tmp: if ok {
                FileState::Written
            } else {
                FileState::Partial
            },
            ..d
        },
        SaveStep::Sync => if ok {
            Disk { tmp: FileState::Durable, ..d }
        } else {
            d
        },
        SaveStep::Rename => if ok {
            Disk { target: d.tmp, tmp: FileState::Absent }
        } else {
            d
        },
        _ => d,
    }
}

/// The step and the files after the first `n` outcomes of a save; `other` says
/// that it is under another name.
pub open spec fn after(other: bool, d: Disk, outcomes: Seq<bool>, n: int) -> (SaveStep, Disk)
    decreases n,
{
    if n <= 0 {
        (if other {
            SaveStep::RemoveLeftovers
        } else {
            SaveStep::Checkpoint
        }, d)
    } else {
        let (s, e) = after(other, d, outcomes, n - 1);
        let ok = outcomes[n - 1];
        (if other {
            copy_step_after(s, ok)
        } else {
            step_after(s, ok)
        }, disk_after(e, s, ok))
    }
}

/// Whatever succeeds and wherever a save stops, the project is what it was
/// before or a complete and durable copy; and it is the copy exactly when the
/// renaming was reached and succeeded.
pub proof fn project_is_always_complete(other: bool, d: Disk, outcomes: Seq<bool>, n: int)
    requires
        0 <= n <= outcomes.len(),
    ensures
        ({
            let (s, e) = after(other, d, outcomes, n);
            &&& e.target == d.target || e.target == FileState::Durable
            &&& s == SaveStep::Close || s == SaveStep::Rename ==> e.tmp == FileState::Durable
            &&& s == SaveStep::Sync ==> e.tmp == FileState::Written
            &&& s == SaveStep::Done || s == SaveStep::Reopen ==> e.target == FileState::Durable
            &&& s == SaveStep::ReopenOld || s == SaveStep::PutBack || s == SaveStep::Close || s
                == SaveStep::Rename || s == SaveStep::Sync || s == SaveStep::Copy || s
                == SaveStep::Checkpoint || s == SaveStep::RemoveLeftovers ==> e.target == d.target
        }),
    decreases n,
{
    if n > 0 {
        project_is_always_complete(other, d, outcomes, n - 1);
    }
}

/// Every save comes to an end within eight steps.
pub proof fn saves_end(other: bool, d: Disk, outcomes: Seq<bool>)
    requires
        outcomes.len() >= 8,
    ensures
        ({
            let s = after(other, d, outcomes, 8).0;
            s == SaveStep::Done || s == SaveStep::Failed
        }),
{
    reveal_with_fuel(after, 9);
}

/// A save in which every step succeeds, the removal of leftovers aside, is done and
/// leaves the complete copy in place and no temporary file.
pub proof fn faultless_saves_are_done(other: bool, d: Disk, outcomes: Seq<bool>)
    requires
        outcomes.len() >= 8,
        forall|i: int|
            0 <= i < 8 && i != (if other {
                0int
            } else {
                1
            }) ==> #[trigger] outcomes[i],
    ensures
        after(other, d, outcomes, 8) == (
            SaveStep::Done,
            (Disk { target: FileState::Durable, tmp: FileState::Absent }),
        ),
{
    reveal_with_fuel(after, 9);
}

/// A project that a save has closed, or tried to close, is opened again before the
/// save fails; and a save that fails before has left it open.
pub proof fn closed_projects_are_opened_again(d: Disk, outcomes: Seq<bool>, n: int)
    requires
        0 < n <= outcomes.len(),
        after(false, d, outcomes, n).0 == SaveStep::Failed,
        after(false, d, outcomes, n - 1).0 != SaveStep::Failed,
    ensures
        ({
            let s = after(false, d, outcomes, n - 1).0;
            &&& s != SaveStep::Close && s != SaveStep::Rename && s != SaveStep::Done
            &&& s != SaveStep::RemoveLeftovers
            &&& s == SaveStep::ReopenOld || s == SaveStep::PutBack || !outcomes[n - 1]
        }),
{
}

} // verus!
