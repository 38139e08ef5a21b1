use iconforge::project::{
    first_copy_step, first_step, is_stale, next_copy_step, next_step, tmp_name, SaveStep,
    TMP_MARKER,
};

#[test]
fn temporaries_are_told_from_projects() {
    let name = tmp_name("p.isgproj", 4711);
    assert_eq!(name, "p.isgproj.tmp-4711");
    assert!(name.contains(TMP_MARKER));
    assert!(is_stale(&name, "p.isgproj"));
    assert!(is_stale("p.isgproj.tmp-1", "p.isgproj"), "another process");
    assert!(!is_stale("p.isgproj", "p.isgproj"));
    assert!(!is_stale("q.isgproj.tmp-1", "p.isgproj"));
    assert!(!is_stale("p.isgproj-wal", "p.isgproj"));
}

/// The steps of a save in which only the step at `fails` fails.
fn run(first: SaveStep, next: fn(SaveStep, bool) -> SaveStep, fails: Option<SaveStep>) -> Vec<SaveStep> {
    let mut s = first;
    let mut out = vec![s];
    while s != SaveStep::Done && s != SaveStep::Failed {
        s = next(s, Some(s) != fails);
        out.push(s);
    }
    out
}

#[test]
fn a_save_renames_last_and_reopens() {
    assert_eq!(
        run(first_step(), next_step, None),
        vec![
            SaveStep::Checkpoint,
            SaveStep::RemoveLeftovers,
            SaveStep::Copy,
            SaveStep::Sync,
            SaveStep::Close,
            SaveStep::Rename,
            SaveStep::Reopen,
            SaveStep::Done
        ]
    );
    for fails in [SaveStep::Checkpoint, SaveStep::Copy, SaveStep::Sync, SaveStep::Close] {
        let steps = run(first_step(), next_step, Some(fails));
        assert!(!steps.contains(&SaveStep::Rename), "{steps:?}");
        assert_eq!(steps.last(), Some(&SaveStep::Failed));
    }
    let steps = run(first_step(), next_step, Some(SaveStep::Rename));
    assert!(steps.contains(&SaveStep::ReopenOld), "the old file is opened again");
    let steps = run(first_step(), next_step, Some(SaveStep::Close));
    assert!(steps.contains(&SaveStep::PutBack), "the project stays open");
    let steps = run(first_step(), next_step, Some(SaveStep::RemoveLeftovers));
    assert_eq!(steps.last(), Some(&SaveStep::Done), "leftovers do no harm");
}

#[test]
fn a_copy_leaves_the_project_open() {
    assert_eq!(
        run(first_copy_step(), next_copy_step, None),
        vec![
            SaveStep::RemoveLeftovers,
            SaveStep::Checkpoint,
            SaveStep::Copy,
            SaveStep::Sync,
            SaveStep::Rename,
            SaveStep::Done
        ]
    );
    let steps = run(first_copy_step(), next_copy_step, Some(SaveStep::Sync));
    assert!(!steps.contains(&SaveStep::Rename), "{steps:?}");
}
