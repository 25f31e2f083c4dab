use mini_lsm_starter::command::{Command, CommandParseError};

fn parse(s: &str) -> Result<Command, CommandParseError> {
    Command::parse(s)
}

#[test]
fn parses_fill_and_keys() {
    match parse("fill 1 100").unwrap() {
        Command::Fill { begin, end } => {
            assert_eq!(begin, 1);
            assert_eq!(end, 100);
        }
        c => panic!("unexpected {:?}", c),
    }
    match parse("GET\t\tkey1 trailing").unwrap() {
        Command::Get { key } => assert_eq!(key, "key1"),
        c => panic!("unexpected {:?}", c),
    }
    match parse("del k").unwrap() {
        Command::Del { key } => assert_eq!(key, "k"),
        c => panic!("unexpected {:?}", c),
    }
}

#[test]
fn parses_scan_with_and_without_range() {
    match parse("scan").unwrap() {
        Command::Scan { begin, end } => {
            assert!(begin.is_none());
            assert!(end.is_none());
        }
        c => panic!("unexpected {:?}", c),
    }
    match parse("scan a z").unwrap() {
        Command::Scan { begin, end } => {
            assert_eq!(begin.as_deref(), Some("a"));
            assert_eq!(end.as_deref(), Some("z"));
        }
        c => panic!("unexpected {:?}", c),
    }
    match parse("scan a").unwrap() {
        Command::Scan { begin, end } => {
            assert!(begin.is_none() && end.is_none());
        }
        c => panic!("unexpected {:?}", c),
    }
}

#[test]
fn parses_transactions_and_plain_commands() {
    assert!(matches!(parse("txn_begin").unwrap(), Command::TxnBegin));
    match parse("txn_put k v").unwrap() {
        Command::TxnPut { key, value } => {
            assert_eq!(key, "k");
            assert_eq!(value, "v");
        }
        c => panic!("unexpected {:?}", c),
    }
    assert!(matches!(parse("txn_get k").unwrap(), Command::TxnGet { .. }));
    assert!(matches!(parse("txn_delete k").unwrap(), Command::TxnDelete { .. }));
    assert!(matches!(parse("TXN_COMMIT").unwrap(), Command::TxnCommit));
    assert!(matches!(parse("dump").unwrap(), Command::Dump));
    assert!(matches!(parse("flush").unwrap(), Command::Flush));
    assert!(matches!(parse("full_compaction").unwrap(), Command::FullCompaction));
    assert!(matches!(parse("quit").unwrap(), Command::Quit));
    assert!(matches!(parse("Close").unwrap(), Command::Close));
}

#[test]
fn rejects_bad_lines() {
    assert_eq!(parse("").unwrap_err(), CommandParseError::Unrecognized);
    assert!(parse("fill 1").is_err());
    assert!(parse("fill 99999999999999999999 1").is_err());
    assert!(parse("get").is_err());
    assert!(parse("hello").is_err());
}

#[test]
fn unicode_whitespace_ends_words() {
    match parse("get ab\u{3000}cd").unwrap() {
        Command::Get { key } => assert_eq!(key, "ab"),
        c => panic!("unexpected {:?}", c),
    }
}
