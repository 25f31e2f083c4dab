use mini_lsm_starter::command::Command;
use mini_lsm_starter::repl::{
    fill_key, fill_report, fill_value, report, scan_report, ReplMode, ReplSession, ReplStep,
};

fn message(step: ReplStep) -> String {
    match step {
        ReplStep::Say { message } => message,
        other => panic!("expected a message, got {:?}", other),
    }
}

#[test]
fn fill_texts() {
    assert_eq!(fill_key(42), "42");
    assert_eq!(fill_value(42, 3), "value42@3");
    assert_eq!(fill_report(1, 100, 0), "100 values filled with epoch 0");
    assert_eq!(scan_report(7), "7 keys scanned");
    assert_eq!(report("k", " deleted"), "k deleted");
}

#[test]
fn sync_mode_has_no_transactions() {
    let mut s = ReplSession::new();
    let step = s.plan(ReplMode::Sync, Command::parse("txn_begin").unwrap());
    assert_eq!(message(step), "Transaction commands not supported in sync mode");
    match s.plan(ReplMode::Sync, Command::parse("fill 1 2").unwrap()) {
        ReplStep::Fill { begin, end, epoch } => assert_eq!((begin, end, epoch), (1, 2, 0)),
        other => panic!("unexpected {:?}", other),
    }
    s.finish();
    assert_eq!(s.epoch, 1);
}

#[test]
fn hybrid_transactions_open_once_and_commit_once() {
    let mut s = ReplSession::new();
    assert_eq!(message(s.plan(ReplMode::Hybrid, Command::TxnCommit)), "No active transaction");
    assert!(matches!(s.plan(ReplMode::Hybrid, Command::TxnBegin), ReplStep::BeginTxn));
    s.txn_started();
    assert_eq!(
        message(s.plan(ReplMode::Hybrid, Command::TxnBegin)),
        "Transaction already active. Commit or abort first."
    );
    assert!(matches!(
        s.plan(ReplMode::Hybrid, Command::parse("txn_put a b").unwrap()),
        ReplStep::TxnPut { .. }
    ));
    assert!(matches!(s.plan(ReplMode::Hybrid, Command::TxnCommit), ReplStep::CommitTxn));
    assert!(!s.txn_active);
    assert_eq!(message(s.plan(ReplMode::Hybrid, Command::TxnCommit)), "No active transaction");
}

#[test]
fn scans_need_both_bounds_or_none() {
    let mut s = ReplSession::new();
    let half = Command::Scan { begin: Some("a".to_string()), end: None };
    assert_eq!(message(s.plan(ReplMode::Hybrid, half)), "invalid command");
    assert!(matches!(s.plan(ReplMode::Hybrid, Command::parse("scan").unwrap()), ReplStep::ScanAll));
    match s.plan(ReplMode::Sync, Command::parse("scan a c").unwrap()) {
        ReplStep::ScanRange { begin, end } => assert_eq!((begin.as_str(), end.as_str()), ("a", "c")),
        other => panic!("unexpected {:?}", other),
    }
}
