use mini_lsm_starter::iterators::RangeLimiter;
use mini_lsm_starter::key::KeyBytes;
use mini_lsm_starter::iterators::{MemIterator, MergeIterator, StorageIterator};
use mini_lsm_starter::key::KeyVec;

fn run(entries: &[(&[u8], u64, &[u8])]) -> Box<MemIterator> {
    Box::new(MemIterator::create(
        entries
            .iter()
            .map(|(k, ts, v)| (KeyVec::from_vec_with_ts_ttl(k.to_vec(), *ts, 0), v.to_vec()))
            .collect(),
    ))
}

fn drain(mut m: MergeIterator<MemIterator>) -> Vec<(Vec<u8>, u64, Vec<u8>)> {
    let mut out = Vec::new();
    while m.is_valid() {
        let k = m.key();
        out.push((k.key_ref().to_vec(), k.ts(), m.value().to_vec()));
        m.next().unwrap();
    }
    out
}

#[test]
fn merge_prefers_newer_source_and_skips_duplicates() {
    let newer = run(&[(b"a", 1, b"a-new"), (b"c", 1, b"c")]);
    let older = run(&[(b"a", 1, b"a-old"), (b"b", 1, b"b")]);
    let merged = drain(MergeIterator::create(vec![newer, older]));
    assert_eq!(
        merged,
        vec![
            (b"a".to_vec(), 1, b"a-new".to_vec()),
            (b"b".to_vec(), 1, b"b".to_vec()),
            (b"c".to_vec(), 1, b"c".to_vec()),
        ]
    );
}

#[test]
fn merge_orders_versions_newest_first() {
    let one = run(&[(b"k", 5, b"v5"), (b"k", 1, b"v1")]);
    let two = run(&[(b"k", 3, b"v3")]);
    let merged = drain(MergeIterator::create(vec![one, two]));
    let ts: Vec<u64> = merged.iter().map(|e| e.1).collect();
    assert_eq!(ts, vec![5, 3, 1]);
}

#[test]
fn merge_of_nothing() {
    let m: MergeIterator<MemIterator> = MergeIterator::create(vec![]);
    assert!(!m.is_valid());
    let empty = MergeIterator::create(vec![run(&[]), run(&[])]);
    assert!(!empty.is_valid());
    assert_eq!(empty.num_active_iterators(), 1);
}

#[test]
fn mem_iterator_walks_entries() {
    let mut it = run(&[(b"x", 2, b"1"), (b"y", 2, b"2")]);
    assert!(it.is_valid());
    assert_eq!(it.key().key_ref(), b"x");
    it.next().unwrap();
    assert_eq!(it.value(), b"2");
    it.next().unwrap();
    assert!(!it.is_valid());
    assert_eq!(it.num_active_iterators(), 1);
}

#[test]
fn range_limiter_skips_below_start_and_stops_at_end() {
    let start = Some(KeyBytes::from_bytes_with_ts(bytes::Bytes::from_static(b"b"), 1));
    let end = Some(KeyBytes::from_bytes_with_ts(bytes::Bytes::from_static(b"d"), 1));
    let inner = run(&[(b"a", 1, b"1"), (b"a2", 1, b"2"), (b"b", 1, b"3"), (b"c", 1, b"4"), (b"d", 1, b"5"), (b"e", 1, b"6")]);
    let mut r = RangeLimiter::new(*inner, start, end).unwrap();
    let mut seen = Vec::new();
    while r.is_valid() {
        seen.push(r.key().key_ref().to_vec());
        r.next().unwrap();
    }
    assert_eq!(seen, vec![b"b".to_vec(), b"c".to_vec()]);
}
