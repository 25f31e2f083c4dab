//! The shape of the tree that compaction decides over: the level-0 tables
//! and the sorted runs below them, each named by table ids.
use vstd::prelude::*;
use crate::key::KeyBytes;
use crate::compact::CompactionOptions;
use crate::compression::CompressionOptions;

verus! {

/// Table ids of the tree: the level-0 tables, newest first, and the levels
/// (or tiers), each an id and the ids of its tables.
pub struct LsmStorageState {
    pub l0_sstables: Vec<usize>,
    pub levels: Vec<(usize, Vec<usize>)>,
}

/// How a store is configured.
pub struct LsmStorageOptions {
    /// The size a block is cut at, in bytes.
    pub block_size: usize,
    /// The size a table is cut at, in bytes.
    pub target_sst_size: usize,
    /// How many immutable memtables may wait before one is flushed.
    pub num_memtable_limit: usize,
    /// Into how many key ranges a compaction may be split.
    pub num_subcompactions: usize,
    pub enable_ttl: bool,
    pub compaction_options: CompactionOptions,
    pub num_compaction_thread_limit: usize,
    pub enable_wal: bool,
    pub serializable: bool,
    pub compression_options: CompressionOptions,
}

/// What compaction reads of a table: its id, its first and last key, and
/// the first key of each of its blocks.
pub struct SstMeta {
    pub id: usize,
    pub first_key: KeyBytes,
    pub last_key: KeyBytes,
    pub block_first_keys: Vec<KeyBytes>,
}

/// Levels as plain sequences of ids.
pub open spec fn levels_view(v: Seq<(usize, Vec<usize>)>) -> Seq<(usize, Seq<usize>)> {
    Seq::new(v.len(), |i: int| (v[i].0, v[i].1@))
}

/// Copies a list of table ids.
pub fn copy_ids(v: &Vec<usize>) -> (r: Vec<usize>)
    ensures
        r@ == v@,
{
    vstd::slice::slice_to_vec(v.as_slice())
}

/// Copies the first `k` levels.
pub fn copy_levels_prefix(v: &Vec<(usize, Vec<usize>)>, k: usize) -> (r: Vec<(usize, Vec<usize>)>)
    requires
        k <= v@.len(),
    ensures
        levels_view(r@) == levels_view(v@).take(k as int),
{
    let mut out: Vec<(usize, Vec<usize>)> = Vec::new();
    let mut i: usize = 0;
    while i < k
        invariant
            0 <= i <= k <= v@.len(),
            out@.len() == i,
            levels_view(out@) == levels_view(v@).take(i as int),
        decreases k - i,
    {
        let ghost old_out = out@;
        let ids = copy_ids(&v[i].1);
        out.push((v[i].0, ids));
        assert forall|j: int| 0 <= j < i + 1 implies levels_view(out@)[j] == levels_view(v@)[j] by {
            if j < i {
                assert(out@[j] == old_out[j]);
                assert(levels_view(old_out)[j] == levels_view(v@).take(i as int)[j]);
                assert(levels_view(old_out)[j] == (old_out[j].0, old_out[j].1@));
            }
        }
        i = i + 1;
        assert(levels_view(out@) =~= levels_view(v@).take(i as int));
    }
    out
}

/// Copies levels.
pub fn copy_levels(v: &Vec<(usize, Vec<usize>)>) -> (r: Vec<(usize, Vec<usize>)>)
    ensures
        levels_view(r@) == levels_view(v@),
{
    let r = copy_levels_prefix(v, v.len());
    assert(levels_view(v@).take(v@.len() as int) =~= levels_view(v@));
    r
}

impl LsmStorageState {
    pub fn clone_state(&self) -> (r: LsmStorageState)
        ensures
            r.l0_sstables@ == self.l0_sstables@,
            levels_view(r.levels@) == levels_view(self.levels@),
    {
        LsmStorageState { l0_sstables: copy_ids(&self.l0_sstables), levels: copy_levels(&self.levels) }
    }
}

/// One write of a batch.
pub enum WriteBatchRecord<T> {
    Put(T, T),
    Del(T),
    PutWithTtl(T, T, u64),
}

/// A write as plain values.
pub enum WriteView {
    Put(Seq<u8>, Seq<u8>),
    Del(Seq<u8>),
    PutWithTtl(Seq<u8>, Seq<u8>, u64),
}

pub open spec fn slice_record_view(r: WriteBatchRecord<&[u8]>) -> WriteView {
    match r {
        WriteBatchRecord::Put(k, v) => WriteView::Put(k@, v@),
        WriteBatchRecord::Del(k) => WriteView::Del(k@),
        WriteBatchRecord::PutWithTtl(k, v, t) => WriteView::PutWithTtl(k@, v@, t),
    }
}

pub open spec fn owned_record_view(r: WriteBatchRecord<Vec<u8>>) -> WriteView {
    match r {
        WriteBatchRecord::Put(k, v) => WriteView::Put(k@, v@),
        WriteBatchRecord::Del(k) => WriteView::Del(k@),
        WriteBatchRecord::PutWithTtl(k, v, t) => WriteView::PutWithTtl(k@, v@, t),
    }
}

pub open spec fn slice_views(s: Seq<WriteBatchRecord<&[u8]>>) -> Seq<WriteView> {
    Seq::new(s.len(), |i: int| slice_record_view(s[i]))
}

pub open spec fn owned_views(s: Seq<WriteBatchRecord<Vec<u8>>>) -> Seq<WriteView> {
    Seq::new(s.len(), |i: int| owned_record_view(s[i]))
}

pub open spec fn put_views(s: Seq<(Vec<u8>, Vec<u8>)>) -> Seq<WriteView> {
    Seq::new(s.len(), |i: int| WriteView::Put(s[i].0@, s[i].1@))
}

/// A batch of borrowed writes, as owned ones.
pub fn to_owned_batch(batch: &[WriteBatchRecord<&[u8]>]) -> (r: Vec<WriteBatchRecord<Vec<u8>>>)
    ensures
        owned_views(r@) == slice_views(batch@),
{
    let mut out: Vec<WriteBatchRecord<Vec<u8>>> = Vec::new();
    let mut i: usize = 0;
    while i < batch.len()
        invariant
            0 <= i <= batch@.len(),
            out@.len() == i,
            owned_views(out@) == slice_views(batch@.take(i as int)),
        decreases batch@.len() - i,
    {
        let w = match &batch[i] {
            WriteBatchRecord::Put(k, v) => WriteBatchRecord::Put(
                vstd::slice::slice_to_vec(k),
                vstd::slice::slice_to_vec(v),
            ),
            WriteBatchRecord::Del(k) => WriteBatchRecord::Del(vstd::slice::slice_to_vec(k)),
            WriteBatchRecord::PutWithTtl(k, v, t) => WriteBatchRecord::PutWithTtl(
                vstd::slice::slice_to_vec(k),
                vstd::slice::slice_to_vec(v),
                *t,
            ),
        };
        assert(owned_record_view(w) == slice_record_view(batch@[i as int]));
        let ghost prev = out@;
        out.push(w);
        assert forall|j: int| 0 <= j < i ==> out@[j] == prev[j] by {}
        assert forall|j: int| 0 <= j < i implies owned_views(out@)[j] == slice_views(batch@.take(i + 1))[j] by {
            assert(owned_views(prev)[j] == slice_views(batch@.take(i as int))[j]);
        }
        assert(owned_views(out@) =~= slice_views(batch@.take(i + 1)));
        i = i + 1;
    }
    assert(batch@.take(batch@.len() as int) =~= batch@);
    out
}

/// Owned writes, borrowed again.
pub fn to_slice_batch<'a>(batch: &'a Vec<WriteBatchRecord<Vec<u8>>>) -> (r: Vec<WriteBatchRecord<&'a [u8]>>)
    ensures
        slice_views(r@) == owned_views(batch@),
{
    let mut out: Vec<WriteBatchRecord<&'a [u8]>> = Vec::new();
    let mut i: usize = 0;
    while i < batch.len()
        invariant
            0 <= i <= batch@.len(),
            out@.len() == i,
            slice_views(out@) == owned_views(batch@.take(i as int)),
        decreases batch@.len() - i,
    {
        let w = match &batch[i] {
            WriteBatchRecord::Put(k, v) => WriteBatchRecord::Put(k.as_slice(), v.as_slice()),
            WriteBatchRecord::Del(k) => WriteBatchRecord::Del(k.as_slice()),
            WriteBatchRecord::PutWithTtl(k, v, t) => WriteBatchRecord::PutWithTtl(k.as_slice(), v.as_slice(), *t),
        };
        assert(slice_record_view(w) == owned_record_view(batch@[i as int]));
        let ghost prev = out@;
        out.push(w);
        assert forall|j: int| 0 <= j < i ==> out@[j] == prev[j] by {}
        assert forall|j: int| 0 <= j < i implies slice_views(out@)[j] == owned_views(batch@.take(i + 1))[j] by {
            assert(slice_views(prev)[j] == owned_views(batch@.take(i as int))[j]);
        }
        assert(slice_views(out@) =~= owned_views(batch@.take(i + 1)));
        i = i + 1;
    }
    assert(batch@.take(batch@.len() as int) =~= batch@);
    out
}

/// Key-value pairs as a batch of puts.
pub fn puts_of<'a>(entries: &'a [(Vec<u8>, Vec<u8>)]) -> (r: Vec<WriteBatchRecord<&'a [u8]>>)
    ensures
        slice_views(r@) == put_views(entries@),
{
    let mut out: Vec<WriteBatchRecord<&'a [u8]>> = Vec::new();
    let mut i: usize = 0;
    while i < entries.len()
        invariant
            0 <= i <= entries@.len(),
            out@.len() == i,
            slice_views(out@) == put_views(entries@.take(i as int)),
        decreases entries@.len() - i,
    {
        let (k, v) = &entries[i];
        let ghost prev = out@;
        out.push(WriteBatchRecord::Put(k.as_slice(), v.as_slice()));
        assert forall|j: int| 0 <= j < i ==> out@[j] == prev[j] by {}
        assert forall|j: int| 0 <= j < i implies slice_views(out@)[j] == put_views(entries@.take(i + 1))[j] by {
            assert(slice_views(prev)[j] == put_views(entries@.take(i as int))[j]);
        }
        assert(slice_views(out@) =~= put_views(entries@.take(i + 1)));
        i = i + 1;
    }
    assert(entries@.take(entries@.len() as int) =~= entries@);
    out
}

} // verus!
