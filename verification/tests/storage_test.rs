use mini_lsm_starter::key::{current_timestamp, timestamp_of};
use bytes::Bytes;
use mini_lsm_starter::block::Block;
use mini_lsm_starter::compression::CompressionOptions;
use mini_lsm_starter::key::{KeyBytes, KeySlice, KeyVec, Type, TTL_DEFAULT};
use mini_lsm_starter::wal::{encode_batch, replay_wal, try_recover_records, WalReplayStatus};

#[test]
fn key_order_newer_version_first() {
    let a = KeySlice::from_slice(b"apple", 5);
    let b = KeySlice::from_slice(b"apple", 3);
    let c = KeySlice::from_slice(b"banana", 9);
    assert!(a < b);
    assert!(b < c);
    assert!(a < c);
    assert_eq!(a.compare(&a), std::cmp::Ordering::Equal);
}

#[test]
fn key_type_bytes() {
    let d: u8 = Type::DELETE.into();
    let p: u8 = Type::PUT.into();
    assert_eq!(d, 0);
    assert_eq!(p, 1);
    assert_eq!(Type::try_from(0u8).unwrap(), Type::DELETE);
    assert_eq!(Type::try_from(1u8).unwrap(), Type::PUT);
    assert_eq!(Type::try_from(7u8).unwrap(), Type::PUT);
}

#[test]
fn key_expiry() {
    let k = KeyVec::from_vec_with_ttl(b"k".to_vec(), 100);
    assert!(!k.is_expired(100));
    assert!(k.is_expired(101));
    let never = KeyVec::from_vec_with_ttl(b"k".to_vec(), TTL_DEFAULT);
    assert!(!never.is_expired(u64::MAX));
    assert_eq!(k.raw_len(), 1 + 17);
}

#[test]
fn key_vec_building() {
    let mut k = KeyVec::new();
    assert!(k.is_empty());
    k.append(b"ab");
    k.append(b"cd");
    k.set_ts(7);
    assert_eq!(k.key_ref(), b"abcd");
    assert_eq!(k.ts(), 7);
    k.clear();
    assert!(k.is_empty());
    assert_eq!(k.ts(), 0);
    let b = KeyBytes::from_bytes_with_ts(Bytes::from_static(b"xy"), 3);
    assert_eq!(b.key_ref(), b"xy");
    assert_eq!(b.clone_key().ts(), 3);
}

fn block_bytes(entries: &[u8], offsets: &[u16]) -> Vec<u8> {
    let mut v = entries.to_vec();
    for o in offsets {
        v.extend_from_slice(&o.to_be_bytes());
    }
    v.extend_from_slice(&(offsets.len() as u16).to_be_bytes());
    v
}

#[test]
fn block_roundtrip_every_compression() {
    let layout = block_bytes(b"hello world entries", &[0, 5, 11]);
    for c in [
        CompressionOptions::NoCompression,
        CompressionOptions::Snappy,
        CompressionOptions::Lz4,
        CompressionOptions::Gz,
    ] {
        let mut stored = layout.clone();
        if c != CompressionOptions::NoCompression {
            let block = Block::decode_checked(&{
                let mut s = layout.clone();
                s.push(0);
                s
            }, CompressionOptions::NoCompression)
            .unwrap();
            stored = block.encode(c).unwrap().to_vec();
        } else {
            stored.push(0);
        }
        let block = Block::decode_checked(&stored, c).unwrap();
        let again = block.encode(c).unwrap();
        assert_eq!(again.to_vec(), stored);
        assert_eq!(*again.last().unwrap(), u8::from(c));
    }
}

#[test]
fn block_decode_rejects_wrong_tag() {
    let mut stored = block_bytes(b"abc", &[0]);
    stored.push(1);
    assert!(Block::decode_checked(&stored, CompressionOptions::NoCompression).is_err());
    assert!(Block::decode_checked(&[], CompressionOptions::NoCompression).is_err());
}

#[test]
fn wal_append_then_replay() {
    let k1 = KeySlice::from_slice_with_type_and_ttl(b"a", 1, Type::PUT, 0);
    let k2 = KeySlice::from_slice_with_type_and_ttl(b"bb", 2, Type::DELETE, 50);
    let mut log = encode_batch(&[(k1, b"one".as_slice())]);
    log.extend(encode_batch(&[(k2, b"".as_slice()), (k1, b"two".as_slice())]));
    let (records, status) = replay_wal(&log);
    assert_eq!(status, WalReplayStatus::Complete);
    assert_eq!(records.len(), 3);
    assert_eq!(records[0].0.key_ref(), b"a");
    assert_eq!(records[0].1.as_ref(), b"one");
    assert_eq!(records[1].0.key_ref(), b"bb");
    assert_eq!(records[1].0.key_type(), Type::DELETE);
    assert_eq!(records[1].0.ttl(), 50);
    assert_eq!(records[2].1.as_ref(), b"two");
}

#[test]
fn wal_torn_tail_keeps_earlier_batches() {
    let k = KeySlice::from_slice(b"key", 4);
    let mut log = encode_batch(&[(k, b"v".as_slice())]);
    let second = encode_batch(&[(k, b"w".as_slice())]);
    log.extend_from_slice(&second[..second.len() - 5]);
    let (records, status) = replay_wal(&log);
    assert_eq!(records.len(), 1);
    assert_eq!(status, WalReplayStatus::Incomplete);
    let recovered = try_recover_records(&log).unwrap();
    assert_eq!(recovered.0.len(), 1);
    assert_eq!(recovered.1, Err("incomplete WAL.".to_string()));
}

#[test]
fn wal_checksum_mismatch_detected() {
    let k = KeySlice::from_slice(b"key", 4);
    let mut log = encode_batch(&[(k, b"value".as_slice())]);
    let n = log.len();
    log[n - 1] ^= 0xff;
    let (records, status) = replay_wal(&log);
    assert!(records.is_empty());
    assert!(matches!(status, WalReplayStatus::ChecksumMismatch { .. }));
    let recovered = try_recover_records(&log).unwrap();
    assert_eq!(recovered.1, Err("checksum mismatch".to_string()));
}

#[test]
fn clock_reads_seconds_since_epoch() {
    let now = current_timestamp();
    let expected = std::time::SystemTime::now()
        .duration_since(std::time::UNIX_EPOCH)
        .unwrap()
        .as_secs();
    assert!(now <= expected && expected - now <= 5);
    assert!(now > 1_600_000_000);
}

#[test]
fn clock_reading_to_timestamp() {
    assert_eq!(timestamp_of(Some(1_700_000_000)), 1_700_000_000);
    assert_eq!(timestamp_of(None), 0);
}
