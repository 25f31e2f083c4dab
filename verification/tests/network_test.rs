use mini_lsm_starter::network::{
    check_request_len, count_request, effective_scan_limit, plan_request,
    register_transaction, truncate_items, ClientSession, FrameError, Request, RequestPlan,
    Response, SecurityConfig, TxnRegistry,
};
use mini_lsm_starter::server_options::{
    create_lsm_options, CompactionStrategy, CompressionStrategy, ServerArgs,
};
use mini_lsm_starter::compact::CompactionOptions;
use mini_lsm_starter::text::decimal_text;
use mini_lsm_starter::error::{LsmError, MvccError, WalError};
use mini_lsm_starter::compression::CompressionOptions;

fn error_message(p: RequestPlan) -> String {
    match p {
        RequestPlan::Reply(Response::Error { message }) => message,
        _ => panic!("expected an error reply"),
    }
}

#[test]
fn frames_are_checked() {
    assert_eq!(check_request_len(0, 10), Err(FrameError::Empty));
    assert_eq!(check_request_len(11, 10), Err(FrameError::TooLarge { len: 11, max: 10 }));
    assert_eq!(check_request_len(10, 10), Ok(()));
    assert_eq!(count_request(49), (50, true));
    assert_eq!(count_request(50), (51, false));
}

#[test]
fn scan_limits() {
    assert_eq!(effective_scan_limit(Some(5), 100), 5);
    assert_eq!(effective_scan_limit(Some(500), 100), 100);
    assert_eq!(effective_scan_limit(None, 100), 100);
    let items = vec![(vec![1], vec![1]), (vec![2], vec![2]), (vec![3], vec![3])];
    assert_eq!(truncate_items(items.clone(), 2).len(), 2);
    assert_eq!(truncate_items(items, 9).len(), 3);
}

#[test]
fn decimal_formatting() {
    assert_eq!(decimal_text(0), "0");
    assert_eq!(decimal_text(1234567890), "1234567890");
    assert_eq!(decimal_text(u64::MAX), u64::MAX.to_string());
}

#[test]
fn requests_are_planned() {
    let config = SecurityConfig::default_config();
    let mut session = ClientSession { transactions: vec![], transaction_count: 0 };
    let mut registry = TxnRegistry::new();
    let p = plan_request(None, &mut session, &mut registry, &config, "1.2.3.4:5", 0);
    assert_eq!(error_message(p), "Invalid request: no operation specified");
    let p = plan_request(
        Some(Request::Scan { start: None, end: None, limit: Some(0) }),
        &mut session, &mut registry, &config, "peer", 0,
    );
    assert_eq!(error_message(p), "Invalid scan limit: 0");
    match plan_request(
        Some(Request::Scan { start: Some(b"a".to_vec()), end: None, limit: None }),
        &mut session, &mut registry, &config, "peer", 0,
    ) {
        RequestPlan::Scan { limit, start, .. } => {
            assert_eq!(limit, 10000);
            assert_eq!(start, Some(b"a".to_vec()));
        }
        _ => panic!("expected a scan"),
    }
    let p = plan_request(
        Some(Request::TxnGet { txn_id: 42, key: vec![] }),
        &mut session, &mut registry, &config, "peer", 0,
    );
    assert_eq!(error_message(p), "Transaction 42 not found");
}

#[test]
fn transactions_are_tracked() {
    let mut config = SecurityConfig::default_config();
    config.max_transactions_per_client = 1;
    let mut session = ClientSession { transactions: vec![], transaction_count: 0 };
    let mut registry = TxnRegistry::new();
    assert!(matches!(
        plan_request(Some(Request::BeginTxn), &mut session, &mut registry, &config, "peer", 0),
        RequestPlan::BeginTxn
    ));
    let id = register_transaction(&mut session, &mut registry, 5);
    assert_eq!(id, 1);
    assert!(registry.contains(1));
    let p = plan_request(Some(Request::BeginTxn), &mut session, &mut registry, &config, "10.0.0.1:80", 6);
    assert_eq!(error_message(p), "Transaction limit exceeded for client 10.0.0.1:80 (max: 1)");
    assert!(matches!(
        plan_request(Some(Request::TxnPut { txn_id: 1, key: vec![1], value: vec![2] }),
            &mut session, &mut registry, &config, "peer", 7),
        RequestPlan::TxnPut { txn_id: 1, .. }
    ));
    assert!(matches!(
        plan_request(Some(Request::CommitTxn { txn_id: 1 }), &mut session, &mut registry, &config, "peer", 8),
        RequestPlan::CommitTxn { txn_id: 1 }
    ));
    assert!(session.transactions.is_empty());
    assert_eq!(session.transaction_count, 0);
    let p = plan_request(Some(Request::CommitTxn { txn_id: 1 }), &mut session, &mut registry, &config, "peer", 9);
    assert_eq!(error_message(p), "Transaction 1 not found");
    let id2 = register_transaction(&mut session, &mut registry, 10);
    assert_eq!(id2, 2);
}

#[test]
fn expired_transactions_are_swept() {
    let mut session = ClientSession { transactions: vec![], transaction_count: 0 };
    let mut registry = TxnRegistry::new();
    register_transaction(&mut session, &mut registry, 0);
    register_transaction(&mut session, &mut registry, 100);
    let gone = registry.remove_expired(350, 300);
    assert_eq!(gone, vec![1]);
    assert!(!registry.contains(1));
    assert!(registry.contains(2));
    assert_eq!(registry.len(), 1);
}

#[test]
fn server_storage_options() {
    let args = ServerArgs {
        compaction: CompactionStrategy::Tiered,
        enable_wal: true,
        serializable: false,
        compression: CompressionStrategy::Lz4,
        block_size: 4096,
        target_sst_size: 2 << 20,
        num_memtable_limit: 3,
        num_compaction_threads: 2,
        enable_ttl: true,
    };
    let o = create_lsm_options(&args);
    assert_eq!(o.block_size, 4096);
    assert_eq!(o.num_subcompactions, 4);
    assert_eq!(o.compression_options, CompressionOptions::Lz4);
    match o.compaction_options {
        CompactionOptions::Tiered(t) => {
            assert_eq!(t.num_tiers, 3);
            assert_eq!(t.max_size_amplification_percent, 200);
            assert_eq!(t.min_merge_width, 2);
            assert!(t.max_merge_width.is_none());
        }
        _ => panic!("expected tiered options"),
    }
}

#[test]
fn error_texts() {
    assert_eq!(
        LsmError::Wal(WalError::ChecksumMismatch { expected: 1, actual: 2 }).to_text(),
        "WAL error: WAL checksum mismatch: expected 1, got 2"
    );
    assert_eq!(
        LsmError::Mvcc(MvccError::ReadTimestampTooOld { read_ts: 3, min_ts: 9 }).to_text(),
        "MVCC error: Read timestamp 3 too old, minimum: 9"
    );
    assert_eq!(LsmError::internal("boom").to_text(), "Internal error: boom");
    let io = LsmError::Io(std::io::Error::new(std::io::ErrorKind::Other, "disk"));
    assert_eq!(io.to_text(), "I/O error: disk");
}

#[test]
fn departed_clients_lose_their_transactions() {
    let mut session = ClientSession { transactions: vec![], transaction_count: 0 };
    let mut registry = TxnRegistry::new();
    let a = register_transaction(&mut session, &mut registry, 0);
    let b = register_transaction(&mut session, &mut registry, 0);
    let c = register_transaction(&mut session, &mut registry, 0);
    registry.remove_all(&vec![a, c, 99]);
    assert!(!registry.contains(a));
    assert!(registry.contains(b));
    assert!(!registry.contains(c));
    assert_eq!(registry.next_txn_id(), 4);
}
