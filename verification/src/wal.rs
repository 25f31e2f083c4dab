//! Write-ahead-log records. A log is a sequence of batches; a batch is
//! `length (4 bytes) | records | crc32 of the records (4 bytes)`, and a record
//! is `key_len (2) | key | ts (8) | type (1) | ttl (8) | value_len (2) | value`,
//! every number big endian.
use vstd::prelude::*;
use bytes::Bytes;
use crate::buffer::{bytes_contents, bytes_copy_from_slice};
use crate::text::append_text;
use crate::key::{Key, KeyBytes, KeySlice, KeyView, Type};

verus! {

/// The CRC-32 checksum `crc32fast::hash` computes of some bytes.
pub uninterp spec fn crc32_checksum(data: Seq<u8>) -> u32;

/// Calls `crc32fast::hash`; claims that it returns the named checksum.
#[verifier::external_body]
fn crc32_hash(data: &[u8]) -> (r: u32)
    ensures
        r == crc32_checksum(data@),
{
    crc32fast::hash(data)
}

// ---------------------------------------------------------------------------
// Big-endian numbers

/// 256 to the power `k`.
pub open spec fn radix(k: nat) -> nat
    decreases k,
{
    if k == 0 {
        1
    } else {
        256 * radix((k - 1) as nat)
    }
}

/// The number some bytes spell in big-endian order.
pub open spec fn be_uint(s: Seq<u8>) -> nat
    decreases s.len(),
{
    if s.len() == 0 {
        0
    } else {
        be_uint(s.drop_last()) * 256 + s.last() as nat
    }
}

/// The `k` big-endian bytes of `v` (of `v` modulo 256^k).
pub open spec fn be_bytes(v: nat, k: nat) -> Seq<u8>
    decreases k,
{
    if k == 0 {
        Seq::empty()
    } else {
        be_bytes(v / 256, (k - 1) as nat).push((v % 256) as u8)
    }
}

/// The big-endian number of `k` bytes at position `p`.
pub open spec fn field(s: Seq<u8>, p: int, k: nat) -> nat {
    be_uint(s.subrange(p, p + k))
}

proof fn lemma_be_uint_bound(s: Seq<u8>)
    ensures
        be_uint(s) < radix(s.len()),
    decreases s.len(),
{
    if s.len() > 0 {
        lemma_be_uint_bound(s.drop_last());
    }
}

proof fn lemma_be_bytes(v: nat, k: nat)
    requires
        v < radix(k),
    ensures
        be_bytes(v, k).len() == k,
        be_uint(be_bytes(v, k)) == v,
    decreases k,
{
    if k > 0 {
        assert(v == 256 * (v / 256) + v % 256) by {
            vstd::arithmetic::div_mod::lemma_fundamental_div_mod(v as int, 256);
        }
        lemma_be_bytes(v / 256, (k - 1) as nat);
        assert(be_bytes(v, k).drop_last() =~= be_bytes(v / 256, (k - 1) as nat));
    }
}

proof fn lemma_radix_values()
    ensures
        radix(2) == 0x1_0000,
        radix(4) == 0x1_0000_0000,
        radix(8) == 0x1_0000_0000_0000_0000,
{
    reveal_with_fuel(radix, 9);
}

proof fn lemma_radix_mono(a: nat, b: nat)
    requires
        a <= b,
    ensures
        radix(a) <= radix(b),
    decreases b,
{
    if a < b {
        lemma_radix_mono(a, (b - 1) as nat);
    }
}

/// Appends the `k` big-endian bytes of `v`.
fn push_be(buf: &mut Vec<u8>, v: u64, k: usize)
    requires
        k <= 8,
    ensures
        final(buf)@ == old(buf)@ + be_bytes(v as nat, k as nat),
    decreases k,
{
    if k > 0 {
        push_be(buf, v / 256, k - 1);
        buf.push((v % 256) as u8);
        assert(final(buf)@ =~= old(buf)@ + be_bytes(v as nat, k as nat));
    } else {
        assert(final(buf)@ =~= old(buf)@ + be_bytes(v as nat, k as nat));
    }
}

/// Reads the big-endian number of `k` bytes at position `p`.
fn read_be(s: &[u8], p: usize, k: usize) -> (r: u64)
    requires
        k <= 8,
        p + k <= s@.len(),
    ensures
        r == field(s@, p as int, k as nat),
        k <= 2 ==> r < 0x1_0000,
        k <= 4 ==> r < 0x1_0000_0000,
{
    let mut acc: u64 = 0;
    let mut j: usize = 0;
    proof {
        lemma_radix_values();
    }
    while j < k
        invariant
            0 <= j <= k <= 8,
            p + k <= s.len(),
            acc == be_uint(s@.subrange(p as int, p + j)),
            radix(8) == 0x1_0000_0000_0000_0000,
        decreases k - j,
    {
        proof {
            lemma_be_uint_bound(s@.subrange(p as int, p + j));
            lemma_radix_mono((j + 1) as nat, 8);
            assert(s@.subrange(p as int, p + j + 1).drop_last() =~= s@.subrange(p as int, p + j));
            assert(radix((j + 1) as nat) == 256 * radix(j as nat));
            assert(acc < radix(j as nat));
            assert(acc * 256 + 255 < radix((j + 1) as nat));
        }
        acc = acc * 256 + s[p + j] as u64;
        j = j + 1;
    }
    proof {
        lemma_be_uint_bound(s@.subrange(p as int, p + k));
        if k <= 2 {
            lemma_radix_mono(k as nat, 2);
        }
        if k <= 4 {
            lemma_radix_mono(k as nat, 4);
        }
    }
    acc
}

// ---------------------------------------------------------------------------
// Records

/// A record as the log holds it: key bytes, timestamp, type byte, expiry
/// time and value bytes.
pub struct WalRecordView {
    pub key: Seq<u8>,
    pub ts: u64,
    pub key_type: u8,
    pub ttl: u64,
    pub value: Seq<u8>,
}

/// The bytes a record is written as; the two lengths are written modulo 2^16.
pub open spec fn encode_record(r: WalRecordView) -> Seq<u8> {
    be_bytes(r.key.len() % 0x1_0000, 2) + r.key + be_bytes(r.ts as nat, 8) + seq![r.key_type]
        + be_bytes(r.ttl as nat, 8) + be_bytes(r.value.len() % 0x1_0000, 2) + r.value
}

/// The bytes a sequence of records is written as, one after the other.
pub open spec fn encode_records(rs: Seq<WalRecordView>) -> Seq<u8>
    decreases rs.len(),
{
    if rs.len() == 0 {
        Seq::empty()
    } else {
        encode_records(rs.drop_last()) + encode_record(rs.last())
    }
}

/// The bytes a batch is written as: its length (modulo 2^32), its bytes and
/// their checksum.
pub open spec fn encode_frame(body: Seq<u8>) -> Seq<u8> {
    be_bytes(body.len() % 0x1_0000_0000, 4) + body + be_bytes(crc32_checksum(body) as nat, 4)
}

/// The record a written key and value stand for.
pub open spec fn record_of(k: KeyView, v: Seq<u8>) -> WalRecordView {
    WalRecordView { key: k.bytes, ts: k.ts, key_type: k.key_type.spec_to_u8(), ttl: k.ttl, value: v }
}

/// The records a batch of keys and values stands for.
pub open spec fn batch_records<'a>(data: Seq<(KeySlice<'a>, &'a [u8])>) -> Seq<WalRecordView> {
    Seq::new(data.len(), |i: int| record_of(data[i].0@, data[i].1@))
}

/// The length of the first record of some bytes, before its value.
pub open spec fn head_len(s: Seq<u8>) -> nat {
    21 + field(s, 0, 2)
}

/// The length of the first record of some bytes.
pub open spec fn first_len(s: Seq<u8>) -> nat {
    head_len(s) + field(s, head_len(s) - 2, 2)
}

/// Whether the bytes begin with a whole record.
pub open spec fn has_record(s: Seq<u8>) -> bool {
    s.len() >= 2 && s.len() >= head_len(s) && s.len() >= first_len(s)
}

/// The first record of some bytes that begin with a whole record.
pub open spec fn first_record(s: Seq<u8>) -> WalRecordView {
    let kl = field(s, 0, 2) as int;
    WalRecordView {
        key: s.subrange(2, 2 + kl),
        ts: field(s, 2 + kl, 8) as u64,
        key_type: s[10 + kl],
        ttl: field(s, 11 + kl, 8) as u64,
        value: s.subrange(head_len(s) as int, first_len(s) as int),
    }
}

/// The records some bytes hold, or `None` where a record is cut short.
pub open spec fn records_of(s: Seq<u8>) -> Option<Seq<WalRecordView>>
    decreases s.len(),
{
    if s.len() == 0 {
        Some(Seq::empty())
    } else if !has_record(s) {
        None
    } else {
        match records_of(s.skip(first_len(s) as int)) {
            Some(rs) => Some(seq![first_record(s)] + rs),
            None => None,
        }
    }
}

/// How reading a log ended.
#[derive(Debug, Clone, Copy, PartialEq, Eq, Structural)]
pub enum WalReplayStatus {
    /// Every batch was read.
    Complete,
    /// A batch is shorter than its length says.
    Incomplete,
    /// A batch's checksum does not match its bytes.
    ChecksumMismatch { expected: u32, actual: u32 },
    /// A batch header, a record or a checksum is cut short.
    Malformed,
}

/// The records read from a log, batch by batch, and how reading ended.
pub struct WalOutcome {
    pub records: Seq<WalRecordView>,
    pub status: WalReplayStatus,
}

/// What reading a log gives: the records of each batch up to the first that
/// fails, and how reading ended.
pub open spec fn wal_outcome(buf: Seq<u8>) -> WalOutcome
    decreases buf.len(),
{
    if buf.len() == 0 {
        WalOutcome { records: Seq::empty(), status: WalReplayStatus::Complete }
    } else if buf.len() < 4 {
        WalOutcome { records: Seq::empty(), status: WalReplayStatus::Malformed }
    } else if buf.len() - 4 < field(buf, 0, 4) {
        WalOutcome { records: Seq::empty(), status: WalReplayStatus::Incomplete }
    } else {
        let size = field(buf, 0, 4) as int;
        let batch = buf.subrange(4, 4 + size);
        match records_of(batch) {
            None => WalOutcome { records: Seq::empty(), status: WalReplayStatus::Malformed },
            Some(rs) => if buf.len() < 8 + size {
                WalOutcome { records: Seq::empty(), status: WalReplayStatus::Malformed }
            } else if crc32_checksum(batch) != field(buf, 4 + size, 4) {
                WalOutcome {
                    records: Seq::empty(),
                    status: WalReplayStatus::ChecksumMismatch {
                        expected: field(buf, 4 + size, 4) as u32,
                        actual: crc32_checksum(batch),
                    },
                }
            } else {
                let rest = wal_outcome(buf.skip(8 + size));
                WalOutcome { records: rs + rest.records, status: rest.status }
            },
        }
    }
}


// ---------------------------------------------------------------------------
// Laws of the layout

/// Whether a record's key and value are short enough for their 2-byte lengths.
pub open spec fn record_fits(r: WalRecordView) -> bool {
    r.key.len() < 0x1_0000 && r.value.len() < 0x1_0000
}

proof fn lemma_prefix_field(a: Seq<u8>, b: Seq<u8>, p: int, k: nat)
    requires
        0 <= p,
        p + k <= a.len(),
    ensures
        field(a + b, p, k) == field(a, p, k),
{
    assert((a + b).subrange(p, p + k) =~= a.subrange(p, p + k));
}

proof fn lemma_prefix_record(a: Seq<u8>, b: Seq<u8>)
    requires
        has_record(a),
    ensures
        has_record(a + b),
        first_len(a + b) == first_len(a),
        first_record(a + b) == first_record(a),
        (a + b).skip(first_len(a) as int) == a.skip(first_len(a) as int) + b,
{
    lemma_prefix_field(a, b, 0, 2);
    let kl = field(a, 0, 2) as int;
    lemma_prefix_field(a, b, head_len(a) - 2, 2);
    lemma_prefix_field(a, b, 2 + kl, 8);
    lemma_prefix_field(a, b, 11 + kl, 8);
    let s = a + b;
    assert(s.subrange(2, 2 + kl) =~= a.subrange(2, 2 + kl));
    assert(s.subrange(head_len(a) as int, first_len(a) as int) =~= a.subrange(
        head_len(a) as int,
        first_len(a) as int,
    ));
    assert(s[10 + kl] == a[10 + kl]);
    assert(s.skip(first_len(a) as int) =~= a.skip(first_len(a) as int) + b);
}

/// Reading a record back from the front of bytes that begin with its
/// encoding gives the record.
proof fn lemma_record_roundtrip(r: WalRecordView, rest: Seq<u8>)
    requires
        record_fits(r),
    ensures
        has_record(encode_record(r) + rest),
        first_len(encode_record(r) + rest) == encode_record(r).len(),
        first_record(encode_record(r) + rest) == r,
        (encode_record(r) + rest).skip(encode_record(r).len() as int) == rest,
{
    let kl = r.key.len();
    let vl = r.value.len();
    lemma_radix_values();
    lemma_be_bytes(kl % 0x1_0000, 2);
    lemma_be_bytes(r.ts as nat, 8);
    lemma_be_bytes(r.ttl as nat, 8);
    lemma_be_bytes(vl % 0x1_0000, 2);
    let e = encode_record(r);
    let s = e + rest;
    assert(e.len() == 21 + kl + vl);
    assert(s.subrange(0, 2) =~= be_bytes(kl % 0x1_0000, 2));
    assert(field(s, 0, 2) == kl);
    assert(s.subrange(2, 2 + kl as int) =~= r.key);
    assert(s.subrange(2 + kl as int, 10 + kl as int) =~= be_bytes(r.ts as nat, 8));
    assert(s[10 + kl as int] == r.key_type);
    assert(s.subrange(11 + kl as int, 19 + kl as int) =~= be_bytes(r.ttl as nat, 8));
    assert(s.subrange(19 + kl as int, 21 + kl as int) =~= be_bytes(vl % 0x1_0000, 2));
    assert(field(s, head_len(s) - 2, 2) == vl);
    assert(s.subrange(21 + kl as int, 21 + kl + vl as int) =~= r.value);
    assert(first_record(s) =~= r);
    assert(s.skip(e.len() as int) =~= rest);
}

/// The records of bytes that hold whole records, followed by more bytes, are
/// those records followed by the records of the rest.
proof fn lemma_records_concat(a: Seq<u8>, b: Seq<u8>)
    requires
        records_of(a) is Some,
    ensures
        records_of(a + b) == match records_of(b) {
            Some(y) => Some(records_of(a).unwrap() + y),
            None => None::<Seq<WalRecordView>>,
        },
    decreases a.len(),
{
    if a.len() == 0 {
        assert(a + b =~= b);
        assert(records_of(b) matches Some(y) ==> Seq::<WalRecordView>::empty() + y =~= y);
    } else {
        let n = first_len(a) as int;
        lemma_prefix_record(a, b);
        lemma_records_concat(a.skip(n), b);
        let x = records_of(a.skip(n)).unwrap();
        if let Some(y) = records_of(b) {
            assert(seq![first_record(a)] + (x + y) =~= (seq![first_record(a)] + x) + y);
        }
    }
}

/// The records read back from a sequence of encoded records are those records.
pub proof fn lemma_records_roundtrip(rs: Seq<WalRecordView>)
    requires
        forall|i: int| 0 <= i < rs.len() ==> record_fits(#[trigger] rs[i]),
    ensures
        records_of(encode_records(rs)) == Some(rs),
    decreases rs.len(),
{
    if rs.len() > 0 {
        let init = rs.drop_last();
        lemma_records_roundtrip(init);
        let e = encode_record(rs.last());
        lemma_record_roundtrip(rs.last(), Seq::empty());
        assert(e + Seq::<u8>::empty() =~= e);
        assert(e.skip(e.len() as int) =~= Seq::<u8>::empty());
        assert(has_record(e));
        assert(first_len(e) == e.len());
        assert(first_record(e) == rs.last());
        assert(records_of(Seq::<u8>::empty()) == Some(Seq::<WalRecordView>::empty()));
        assert(records_of(e) == Some(seq![rs.last()] + Seq::<WalRecordView>::empty()));
        lemma_records_concat(encode_records(init), e);
        assert(init + (seq![rs.last()] + Seq::<WalRecordView>::empty()) =~= rs);
    }
}

/// Reading a log whose first part reads completely gives the records of
/// that part followed by what reading the rest gives.
proof fn lemma_wal_concat(p: Seq<u8>, q: Seq<u8>)
    requires
        wal_outcome(p).status == WalReplayStatus::Complete,
    ensures
        wal_outcome(p + q).records == wal_outcome(p).records + wal_outcome(q).records,
        wal_outcome(p + q).status == wal_outcome(q).status,
    decreases p.len(),
{
    if p.len() == 0 {
        assert(p + q =~= q);
        assert(wal_outcome(p).records + wal_outcome(q).records =~= wal_outcome(q).records);
    } else {
        let size = field(p, 0, 4) as int;
        lemma_prefix_field(p, q, 0, 4);
        lemma_prefix_field(p, q, 4 + size, 4);
        let s = p + q;
        assert(s.subrange(4, 4 + size) =~= p.subrange(4, 4 + size));
        assert(s.skip(8 + size) =~= p.skip(8 + size) + q);
        lemma_wal_concat(p.skip(8 + size), q);
        let rs = records_of(p.subrange(4, 4 + size)).unwrap();
        assert(rs + (wal_outcome(p.skip(8 + size)).records + wal_outcome(q).records) =~= (rs
            + wal_outcome(p.skip(8 + size)).records) + wal_outcome(q).records);
    }
}

/// Whether a batch of records can be written so that it reads back: each
/// key and value shorter than 2^16 bytes, the whole shorter than 2^32.
pub open spec fn batch_fits(rs: Seq<WalRecordView>) -> bool {
    &&& forall|i: int| 0 <= i < rs.len() ==> record_fits(#[trigger] rs[i])
    &&& encode_records(rs).len() < 0x1_0000_0000
}

/// Replaying exactly one written batch gives its records.
proof fn lemma_frame_replay(batch: Seq<WalRecordView>)
    requires
        batch_fits(batch),
    ensures
        wal_outcome(encode_frame(encode_records(batch))).status == WalReplayStatus::Complete,
        wal_outcome(encode_frame(encode_records(batch))).records == batch,
{
    let body = encode_records(batch);
    let f = encode_frame(body);
    lemma_radix_values();
    lemma_be_bytes(body.len() % 0x1_0000_0000, 4);
    lemma_be_bytes(crc32_checksum(body) as nat, 4);
    lemma_records_roundtrip(batch);
    let size = body.len() as int;
    assert(f.subrange(0, 4) =~= be_bytes(body.len() % 0x1_0000_0000, 4));
    assert(field(f, 0, 4) == size);
    assert(f.subrange(4, 4 + size) =~= body);
    assert(f.subrange(4 + size, 8 + size) =~= be_bytes(crc32_checksum(body) as nat, 4));
    assert(field(f, 4 + size, 4) == crc32_checksum(body));
    assert(f.skip(8 + size) =~= Seq::<u8>::empty());
    assert(wal_outcome(Seq::<u8>::empty()).records =~= Seq::<WalRecordView>::empty());
    assert(batch + Seq::<WalRecordView>::empty() =~= batch);
}

/// Replaying a log after a batch has been appended to it gives back what it
/// gave before, followed by the batch's records: what is written is read.
pub proof fn lemma_wal_append_replay(log: Seq<u8>, batch: Seq<WalRecordView>)
    requires
        wal_outcome(log).status == WalReplayStatus::Complete,
        batch_fits(batch),
    ensures
        wal_outcome(log + encode_frame(encode_records(batch))).status
            == WalReplayStatus::Complete,
        wal_outcome(log + encode_frame(encode_records(batch))).records == wal_outcome(log).records
            + batch,
{
    lemma_frame_replay(batch);
    lemma_wal_concat(log, encode_frame(encode_records(batch)));
}


/// The log written by appending batches one after the other.
pub open spec fn log_of_batches(batches: Seq<Seq<WalRecordView>>) -> Seq<u8>
    decreases batches.len(),
{
    if batches.len() == 0 {
        Seq::empty()
    } else {
        log_of_batches(batches.drop_last()) + encode_frame(encode_records(batches.last()))
    }
}

/// The records of batches, in the order they were written.
pub open spec fn records_of_batches(batches: Seq<Seq<WalRecordView>>) -> Seq<WalRecordView>
    decreases batches.len(),
{
    if batches.len() == 0 {
        Seq::empty()
    } else {
        records_of_batches(batches.drop_last()) + batches.last()
    }
}

/// Replaying a log written as any number of batches, each of which fits,
/// reads it completely and gives every record of every batch, in order.
pub proof fn lemma_wal_batches_replay(batches: Seq<Seq<WalRecordView>>)
    requires
        forall|i: int| 0 <= i < batches.len() ==> batch_fits(#[trigger] batches[i]),
    ensures
        wal_outcome(log_of_batches(batches)).status == WalReplayStatus::Complete,
        wal_outcome(log_of_batches(batches)).records == records_of_batches(batches),
    decreases batches.len(),
{
    if batches.len() == 0 {
        assert(wal_outcome(Seq::<u8>::empty()).records =~= Seq::<WalRecordView>::empty());
    } else {
        let init = batches.drop_last();
        assert forall|i: int| 0 <= i < init.len() implies batch_fits(#[trigger] init[i]) by {
            assert(init[i] == batches[i]);
        }
        lemma_wal_batches_replay(init);
        assert(batch_fits(batches[batches.len() - 1]));
        lemma_wal_append_replay(log_of_batches(init), batches.last());
    }
}

// ---------------------------------------------------------------------------
// Writing and reading

/// Appends a slice's bytes.
fn append_bytes(buf: &mut Vec<u8>, s: &[u8])
    ensures
        final(buf)@ == old(buf)@ + s@,
{
    let mut i: usize = 0;
    while i < s.len()
        invariant
            0 <= i <= s.len(),
            buf@ == old(buf)@ + s@.take(i as int),
        decreases s.len() - i,
    {
        buf.push(s[i]);
        i = i + 1;
        assert(old(buf)@ + s@.take(i as int) =~= (old(buf)@ + s@.take((i - 1) as int)).push(
            s@[i - 1],
        ));
    }
    assert(s@.take(s.len() as int) =~= s@);
}

/// Encodes a batch of keys and values as the bytes appended to the log:
/// the length of the records, the records, and their checksum.
pub fn encode_batch(data: &[(KeySlice, &[u8])]) -> (r: Vec<u8>)
    ensures
        r@ == encode_frame(encode_records(batch_records(data@))),
{
    let ghost all = batch_records(data@);
    let mut body: Vec<u8> = Vec::new();
    let mut i: usize = 0;
    while i < data.len()
        invariant
            0 <= i <= data.len(),
            all == batch_records(data@),
            body@ == encode_records(all.take(i as int)),
        decreases data.len() - i,
    {
        let (key, value) = data[i];
        let key_bytes = key.key_ref();
        push_be(&mut body, (key_bytes.len() % 0x1_0000) as u64, 2);
        append_bytes(&mut body, key_bytes);
        push_be(&mut body, key.ts(), 8);
        body.push(u8::from(key.key_type()));
        push_be(&mut body, key.ttl(), 8);
        push_be(&mut body, (value.len() % 0x1_0000) as u64, 2);
        append_bytes(&mut body, value);
        proof {
            assert(all.take(i + 1).drop_last() =~= all.take(i as int));
            assert(all.take(i + 1).last() == all[i as int]);
            assert(body@ =~= encode_records(all.take(i + 1)));
        }
        i = i + 1;
    }
    assert(all.take(data.len() as int) =~= all);
    let mut buf: Vec<u8> = Vec::new();
    push_be(&mut buf, (body.len() as u64) % 0x1_0000_0000, 4);
    append_bytes(&mut buf, body.as_slice());
    let checksum = crc32_hash(body.as_slice());
    push_be(&mut buf, checksum as u64, 4);
    assert(buf@ =~= encode_frame(body@));
    buf
}

/// Whether a read key and value stand for a record: the key bytes, timestamp,
/// type (the type byte read as `Type`), expiry time and value agree.
pub open spec fn entry_matches(e: (KeyBytes, Bytes), r: WalRecordView) -> bool {
    &&& e.0@ == (KeyView {
        bytes: r.key,
        ts: r.ts,
        key_type: Type::spec_from_u8(r.key_type),
        ttl: r.ttl,
    })
    &&& bytes_contents(e.1) == r.value
}

/// Whether read keys and values stand, one by one, for records.
pub open spec fn entries_match(es: Seq<(KeyBytes, Bytes)>, rs: Seq<WalRecordView>) -> bool {
    &&& es.len() == rs.len()
    &&& forall|i: int| 0 <= i < es.len() ==> entry_matches(#[trigger] es[i], rs[i])
}

/// Records followed by what some further reading gave.
pub open spec fn then_records(
    xs: Seq<WalRecordView>,
    o: Option<Seq<WalRecordView>>,
) -> Option<Seq<WalRecordView>> {
    match o {
        Some(ys) => Some(xs + ys),
        None => None,
    }
}

/// Reads the records of one batch.
fn parse_records(batch: &[u8]) -> (r: Option<Vec<(KeyBytes, Bytes)>>)
    ensures
        match r {
            Some(v) => records_of(batch@) matches Some(rs) && entries_match(v@, rs),
            None => records_of(batch@) is None,
        },
{
    let mut out: Vec<(KeyBytes, Bytes)> = Vec::new();
    let ghost mut recs: Seq<WalRecordView> = Seq::empty();
    let mut pos: usize = 0;
    assert(batch@.skip(0) =~= batch@);
    assert(recs + Seq::<WalRecordView>::empty() =~= recs);
    while pos < batch.len()
        invariant
            0 <= pos <= batch.len(),
            records_of(batch@) == then_records(recs, records_of(batch@.skip(pos as int))),
            entries_match(out@, recs),
        decreases batch.len() - pos,
    {
        let ghost rest = batch@.skip(pos as int);
        let avail = batch.len() - pos;
        if avail < 2 {
            return None;
        }
        let kl = read_be(batch, pos, 2) as usize;
        assert(rest.subrange(0, 2) =~= batch@.subrange(pos as int, pos + 2));
        assert(kl == field(rest, 0, 2));
        if avail < 21 || avail - 21 < kl {
            return None;
        }
        let vl = read_be(batch, pos + 19 + kl, 2) as usize;
        assert(rest.subrange(19 + kl, 21 + kl) =~= batch@.subrange(pos + 19 + kl, pos + 21 + kl));
        assert(vl == field(rest, head_len(rest) - 2, 2));
        if avail - 21 - kl < vl {
            return None;
        }
        let key_bytes = bytes_copy_from_slice(
            vstd::slice::slice_subrange(batch, pos + 2, pos + 2 + kl),
        );
        let ts = read_be(batch, pos + 2 + kl, 8);
        let type_byte = batch[pos + 10 + kl];
        let ttl = read_be(batch, pos + 11 + kl, 8);
        let value = bytes_copy_from_slice(
            vstd::slice::slice_subrange(batch, pos + 21 + kl, pos + 21 + kl + vl),
        );
        let key_type = match type_byte {
            0 => Type::DELETE,
            _ => Type::PUT,
        };
        let key = Key::<Bytes>::from_bytes_with_all(key_bytes, ts, key_type, ttl);
        proof {
            assert(rest.subrange(2, 2 + kl) =~= batch@.subrange(pos + 2, pos + 2 + kl));
            assert(rest.subrange(2 + kl, 10 + kl) =~= batch@.subrange(pos + 2 + kl, pos + 10 + kl));
            assert(rest.subrange(11 + kl, 19 + kl) =~= batch@.subrange(
                pos + 11 + kl,
                pos + 19 + kl,
            ));
            assert(rest.subrange(21 + kl, 21 + kl + vl) =~= batch@.subrange(
                pos + 21 + kl,
                pos + 21 + kl + vl,
            ));
            assert(rest[10 + kl] == type_byte);
            assert(has_record(rest));
            assert(entry_matches((key, value), first_record(rest)));
            assert(rest.skip(first_len(rest) as int) =~= batch@.skip(pos + 21 + kl + vl));
            assert(records_of(rest) == then_records(
                seq![first_record(rest)],
                records_of(rest.skip(first_len(rest) as int)),
            ));
            if let Some(ys) = records_of(rest.skip(first_len(rest) as int)) {
                assert(recs + (seq![first_record(rest)] + ys) =~= recs.push(first_record(rest))
                    + ys);
            }
        }
        out.push((key, value));
        proof {
            recs = recs.push(first_record(rest));
        }
        pos = pos + 21 + kl + vl;
    }
    assert(batch@.skip(pos as int) =~= Seq::<u8>::empty());
    assert(recs + Seq::<WalRecordView>::empty() =~= recs);
    Some(out)
}

/// What reading further gave, after records already read.
pub open spec fn after_records(xs: Seq<WalRecordView>, o: WalOutcome) -> WalOutcome {
    WalOutcome { records: xs + o.records, status: o.status }
}

/// Reads a log batch by batch, up to the first batch that fails.
pub fn replay_wal(buf: &[u8]) -> (r: (Vec<(KeyBytes, Bytes)>, WalReplayStatus))
    ensures
        entries_match(r.0@, wal_outcome(buf@).records),
        r.1 == wal_outcome(buf@).status,
{
    let mut out: Vec<(KeyBytes, Bytes)> = Vec::new();
    let ghost mut recs: Seq<WalRecordView> = Seq::empty();
    let mut pos: usize = 0;
    assert(buf@.skip(0) =~= buf@);
    assert(recs + wal_outcome(buf@).records =~= wal_outcome(buf@).records);
    loop
        invariant
            0 <= pos <= buf.len(),
            wal_outcome(buf@) == after_records(recs, wal_outcome(buf@.skip(pos as int))),
            entries_match(out@, recs),
        decreases buf.len() - pos,
    {
        let ghost rest = buf@.skip(pos as int);
        let avail = buf.len() - pos;
        if avail == 0 {
            assert(rest =~= Seq::<u8>::empty());
            assert(recs + Seq::<WalRecordView>::empty() =~= recs);
            return (out, WalReplayStatus::Complete);
        }
        if avail < 4 {
            assert(recs + Seq::<WalRecordView>::empty() =~= recs);
            return (out, WalReplayStatus::Malformed);
        }
        let size = read_be(buf, pos, 4) as usize;
        assert(rest.subrange(0, 4) =~= buf@.subrange(pos as int, pos + 4));
        assert(size == field(rest, 0, 4));
        if avail - 4 < size {
            assert(recs + Seq::<WalRecordView>::empty() =~= recs);
            return (out, WalReplayStatus::Incomplete);
        }
        let batch = vstd::slice::slice_subrange(buf, pos + 4, pos + 4 + size);
        assert(rest.subrange(4, 4 + size) =~= batch@);
        let entries: Vec<(KeyBytes, Bytes)> = match parse_records(batch) {
            Some(v) => v,
            None => {
                assert(recs + Seq::<WalRecordView>::empty() =~= recs);
                return (out, WalReplayStatus::Malformed);
            },
        };
        if avail - 4 - size < 4 {
            assert(recs + Seq::<WalRecordView>::empty() =~= recs);
            return (out, WalReplayStatus::Malformed);
        }
        let expected = read_be(buf, pos + 4 + size, 4) as u32;
        assert(rest.subrange(4 + size, 8 + size) =~= buf@.subrange(pos + 4 + size, pos + 8 + size));
        let actual = crc32_hash(batch);
        if actual != expected {
            assert(recs + Seq::<WalRecordView>::empty() =~= recs);
            return (out, WalReplayStatus::ChecksumMismatch { expected, actual });
        }
        let ghost rs = records_of(batch@).unwrap();
        let ghost before = out@;
        let mut entries = entries;
        let ghost rs_entries = entries@;
        out.append(&mut entries);
        proof {
            assert(rest.skip(8 + size) =~= buf@.skip(pos + 8 + size));
            assert forall|i: int| 0 <= i < out@.len() implies entry_matches(
                #[trigger] out@[i],
                (recs + rs)[i],
            ) by {
                assert(out@[i] == (before + rs_entries)[i]);
                if i >= before.len() {
                    assert(entry_matches(rs_entries[i - before.len()], rs[i - before.len()]));
                } else {
                    assert(entry_matches(before[i], recs[i]));
                }
            }
            assert((recs + rs) + wal_outcome(buf@.skip(pos + 8 + size)).records =~= recs + (rs
                + wal_outcome(buf@.skip(pos + 8 + size)).records));
            recs = recs + rs;
        }
        pos = pos + 8 + size;
    }
}

/// Recovers the records of a log whose batches are not cut short: every
/// record of the batches before the first failing one, and the failure's
/// message ("incomplete WAL." for a batch longer than what is left,
/// "checksum mismatch" for a batch whose checksum does not match).
pub fn recover_records(buf: &[u8]) -> (r: (Vec<(KeyBytes, Bytes)>, Result<(), String>))
    requires
        wal_outcome(buf@).status != WalReplayStatus::Malformed,
    ensures
        entries_match(r.0@, wal_outcome(buf@).records),
        match wal_outcome(buf@).status {
            WalReplayStatus::Complete => r.1 is Ok,
            WalReplayStatus::Incomplete => r.1 matches Err(m) && m@ == "incomplete WAL."@,
            WalReplayStatus::ChecksumMismatch { .. } => r.1 matches Err(m) && m@ == "checksum mismatch"@,
            WalReplayStatus::Malformed => false,
        },
{
    let (entries, status) = replay_wal(buf);
    let result = match status {
        WalReplayStatus::Complete => Ok(()),
        WalReplayStatus::Incomplete => {
            let mut m = String::new();
            append_text(&mut m, "incomplete WAL.");
            Err(m)
        },
        WalReplayStatus::ChecksumMismatch { .. } => {
            let mut m = String::new();
            append_text(&mut m, "checksum mismatch");
            Err(m)
        },
        WalReplayStatus::Malformed => Ok(()),
    };
    (entries, result)
}

/// Recovers the records of a log, or answers `None` where a batch header,
/// a record or a checksum is cut short.
pub fn try_recover_records(buf: &[u8]) -> (r: Option<(Vec<(KeyBytes, Bytes)>, Result<(), String>)>)
    ensures
        r is None <==> wal_outcome(buf@).status == WalReplayStatus::Malformed,
        r matches Some(p) ==> entries_match(p.0@, wal_outcome(buf@).records) && (p.1 is Ok
            <==> wal_outcome(buf@).status == WalReplayStatus::Complete),
{
    let (_, status) = replay_wal(buf);
    if status == WalReplayStatus::Malformed {
        None
    } else {
        Some(recover_records(buf))
    }
}

} // verus!