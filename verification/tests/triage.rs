use iconforge::triage::{TriageAction, TriageError, TriageLog, REVIEW_HEADER};

#[test]
fn a_decision_records_its_action_and_sequence() {
    let mut log = TriageLog::new();
    assert_eq!(log.apply(4, TriageAction::Approve, 1_700_000_000_000), 0);
    assert_eq!(log.apply(5, TriageAction::Reject, 1_700_000_000_100), 1);
    let decision = log.decision(4).expect("decided");
    assert_eq!(decision.action, TriageAction::Approve);
    assert_eq!(decision.seq, 0);
    assert_eq!(decision.at_ms, 1_700_000_000_000);
    assert_eq!(log.len(), 2);
    assert!(!log.is_empty());
    // Two decisions were taken, so both can be undone and then nothing can.
    assert!(log.can_undo());
    log.undo();
    log.undo();
    assert!(!log.can_undo(), "an empty history has nothing to undo");
}

#[test]
fn undo_restores_the_previous_decision_not_an_empty_slot() {
    let mut log = TriageLog::new();
    log.apply(7, TriageAction::Flag, 10);
    log.apply(7, TriageAction::Reject, 20);
    let undone = log.undo().expect("something to undo");
    assert_eq!(undone.0, 7);
    assert_eq!(
        log.decision(7).map(|d| d.action),
        Some(TriageAction::Flag),
        "the flag comes back"
    );
    log.undo();
    assert_eq!(log.decision(7), None, "and then nothing");
    assert!(log.undo().is_none(), "an empty log has nothing to undo");
}

#[test]
fn sequence_numbers_do_not_go_backwards_after_an_undo() {
    let mut log = TriageLog::new();
    log.apply(1, TriageAction::Approve, 0);
    log.undo();
    assert_eq!(log.apply(2, TriageAction::Approve, 0), 1);
}

#[test]
fn counts_follow_the_action_order() {
    let mut log = TriageLog::new();
    log.apply(1, TriageAction::Approve, 0);
    log.apply(2, TriageAction::Approve, 0);
    log.apply(3, TriageAction::Duplicate, 0);
    log.apply(4, TriageAction::BulkApprove, 0);
    assert_eq!(log.counts(), [2, 0, 0, 1, 1]);
}

#[test]
fn the_csv_is_chronological_whatever_the_id_order() {
    let mut log = TriageLog::new();
    log.apply(9, TriageAction::Reject, 111);
    log.apply(2, TriageAction::Approve, 222);
    let csv = log.to_csv();
    assert_eq!(
        csv,
        "seq,id,action,at_ms\r\n0,9,reject,111\r\n1,2,approve,222\r\n"
    );
}

#[test]
fn the_csv_round_trips() {
    let mut log = TriageLog::new();
    log.apply(3, TriageAction::Flag, 10);
    log.apply(4, TriageAction::Approve, 20);
    let back = TriageLog::from_csv(&log.to_csv()).expect("parses");
    assert_eq!(back.len(), 2);
    assert_eq!(back.decision(3).map(|d| d.action), Some(TriageAction::Flag));
    assert_eq!(back.decision(4).map(|d| d.at_ms), Some(20));
    assert_eq!(back.to_csv(), log.to_csv(), "byte-identical re-export");
    // The sequence counter continues after the import.
    let mut back = back;
    assert_eq!(back.apply(5, TriageAction::Reject, 30), 2);
}

#[test]
fn columns_may_be_in_any_order() {
    let text = "id,action,seq,at_ms\r\n7,duplicate,5,99\r\n";
    let log = TriageLog::from_csv(text).expect("parses");
    assert_eq!(
        log.decision(7).map(|d| d.action),
        Some(TriageAction::Duplicate)
    );
    assert_eq!(log.decision(7).map(|d| d.seq), Some(5));
}

#[test]
fn malformed_rows_name_their_line() {
    let log = TriageLog::from_csv("seq,id,action,at_ms\r\n0,x,approve,1\r\n");
    assert_eq!(
        log,
        Err(TriageError::Malformed {
            line: 2,
            reason: "id: invalid digit found in string".to_string()
        })
    );
    let bad_action = TriageLog::from_csv("seq,id,action,at_ms\r\n0,1,shrug,1\r\n");
    assert!(matches!(
        bad_action,
        Err(TriageError::Malformed { line: 2, .. })
    ));
    let missing = TriageLog::from_csv("seq,id,at_ms\r\n0,1,1\r\n");
    assert_eq!(
        missing,
        Err(TriageError::MissingColumn("action".to_string()))
    );
}

#[test]
fn a_later_row_for_the_same_icon_wins() {
    let text = "seq,id,action,at_ms\r\n0,1,flag,10\r\n1,1,approve,20\r\n";
    let log = TriageLog::from_csv(text).expect("parses");
    assert_eq!(log.len(), 1);
    assert_eq!(
        log.decision(1).map(|d| d.action),
        Some(TriageAction::Approve)
    );
    assert_eq!(log.counts(), [1, 0, 0, 0, 0]);
}

#[test]
fn keys_and_names_round_trip() {
    for action in TriageAction::all() {
        assert_eq!(TriageAction::parse(action.as_str()), Some(action));
        assert!(!action.key().is_empty());
    }
    assert_eq!(TriageAction::parse("nope"), None);
}

#[test]
fn an_empty_log_is_only_a_header() {
    let log = TriageLog::new();
    assert_eq!(log.to_csv(), format!("{REVIEW_HEADER}\r\n"));
    let back = TriageLog::from_csv(&log.to_csv()).expect("parses");
    assert!(back.is_empty());
    assert_eq!(back.next_seq(), 0);
    assert!(!back.can_undo(), "an imported log has no history");
}

#[test]
fn triage_errors_say_what_is_wrong() {
    let missing = TriageError::MissingColumn("action".to_string());
    assert!(missing.message().contains("action"));
    let bad = TriageError::Malformed {
        line: 3,
        reason: "id: x".to_string(),
    };
    assert_eq!(bad.message(), "line 3: id: x");
    let large = TriageLog::from_csv("seq,id,action,at_ms\r\n0,4294967296,approve,1\r\n");
    assert_eq!(
        large,
        Err(TriageError::Malformed {
            line: 2,
            reason: "id: number too large to fit in target type".to_string()
        })
    );
}

#[test]
fn counts_add_up_to_the_decisions() {
    let mut log = TriageLog::new();
    log.apply(1, TriageAction::Approve, 1);
    log.apply(2, TriageAction::Approve, 2);
    log.apply(3, TriageAction::Reject, 3);
    log.apply(3, TriageAction::Flag, 4);
    assert_eq!(log.counts().iter().sum::<usize>(), 3);
    assert_eq!(log.len(), 3);
}

#[test]
fn numbering_goes_on_after_a_table_was_read() {
    let mut log = TriageLog::new();
    log.apply(1, TriageAction::Approve, 1);
    log.apply(2, TriageAction::Reject, 2);
    let mut back = TriageLog::from_csv(&log.to_csv()).expect("parses");
    assert!(!back.can_undo());
    assert_eq!(back.decision(2), log.decision(2));
    assert_eq!(back.apply(9, TriageAction::Flag, 3), 2);
    // An undone number is not given again.
    assert!(back.undo().is_some());
    assert_eq!(back.apply(9, TriageAction::Flag, 4), 3);
    assert!(back.undo().is_some());
    assert!(back.undo().is_none(), "one undo for each decision since");
}
