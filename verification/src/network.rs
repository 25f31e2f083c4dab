//! The decisions of the network server: which requests it accepts, how far
//! a scan may go, and the bookkeeping of open transactions per client.
//! Reading and writing the connection and running the storage calls are left
//! to the caller, which hands the results back.
use vstd::prelude::*;
use crate::text::{append_text, decimal, decimal_text};
use crate::connection_pool::{ConnectionPoolConfig, duration_from_secs};

verus! {

/// A request of the wire protocol.
pub enum Request {
    Get { key: Vec<u8> },
    Put { key: Vec<u8>, value: Vec<u8> },
    Delete { key: Vec<u8> },
    Scan { start: Option<Vec<u8>>, end: Option<Vec<u8>>, limit: Option<u32> },
    BeginTxn,
    CommitTxn { txn_id: u64 },
    TxnGet { txn_id: u64, key: Vec<u8> },
    TxnPut { txn_id: u64, key: Vec<u8>, value: Vec<u8> },
    TxnDelete { txn_id: u64, key: Vec<u8> },
}

/// A response of the wire protocol.
pub enum Response {
    GetResult { value: Option<Vec<u8>> },
    PutResult,
    DeleteResult,
    ScanResult { items: Vec<(Vec<u8>, Vec<u8>)> },
    TxnStarted { txn_id: u64 },
    TxnCommitted,
    TxnGetResult { value: Option<Vec<u8>> },
    TxnPutResult,
    TxnDeleteResult,
    Error { message: String },
}

/// Limits that protect the server from clients.
pub struct SecurityConfig {
    pub max_request_size: usize,
    pub read_timeout: std::time::Duration,
    pub max_transactions_per_client: usize,
    pub max_scan_limit: u32,
    pub connection_pool: ConnectionPoolConfig,
}

impl SecurityConfig {
    /// The default limits: requests up to 64 KiB, a 30-second read timeout,
    /// ten transactions per client, scans of up to ten thousand items, and
    /// the default connection pool.
    pub fn default_config() -> (r: SecurityConfig)
        ensures
            r.max_request_size == 65536,
            r.max_transactions_per_client == 10,
            r.max_scan_limit == 10000,
            r.connection_pool.max_connections == 1000,
            r.connection_pool.max_connections_per_ip == 100,
            r.connection_pool.rate_limit_rps == 100,
            r.connection_pool.rate_limit_burst == 200,
            r.connection_pool.max_request_size == 65536,
    {
        SecurityConfig {
            max_request_size: 64 * 1024,
            read_timeout: duration_from_secs(30),
            max_transactions_per_client: 10,
            max_scan_limit: 10000,
            connection_pool: ConnectionPoolConfig::default(),
        }
    }
}

/// Why a request frame is refused.
#[derive(Debug, Clone, Copy, PartialEq, Eq, Structural)]
pub enum FrameError {
    Empty,
    TooLarge { len: usize, max: usize },
}

/// Checks the announced length of a request: neither empty nor over the
/// limit.
pub fn check_request_len(len: usize, max_request_size: usize) -> (r: Result<(), FrameError>)
    ensures
        len == 0 ==> r == Err::<(), FrameError>(FrameError::Empty),
        len != 0 && len > max_request_size ==> r == Err::<(), FrameError>(
            FrameError::TooLarge { len, max: max_request_size },
        ),
        len != 0 && len <= max_request_size ==> r is Ok,
{
    if len == 0 {
        return Err(FrameError::Empty);
    }
    if len > max_request_size {
        return Err(FrameError::TooLarge { len, max: max_request_size });
    }
    Ok(())
}

/// Counts a request; every fiftieth one is followed by a sweep of expired
/// transactions.
pub fn count_request(count: u32) -> (r: (u32, bool))
    requires
        count < u32::MAX,
    ensures
        r.0 == count + 1,
        r.1 == ((count + 1) % 50 == 0),
{
    let next = count + 1;
    (next, next % 50 == 0)
}

/// The most items a scan returns: what the client asked for, capped by the
/// server's limit; the server's limit when the client named none.
pub open spec fn spec_effective_limit(limit: Option<u32>, max_scan_limit: u32) -> u32 {
    match limit {
        Some(l) => if l <= max_scan_limit { l } else { max_scan_limit },
        None => max_scan_limit,
    }
}

pub fn effective_scan_limit(limit: Option<u32>, max_scan_limit: u32) -> (r: u32)
    ensures
        r == spec_effective_limit(limit, max_scan_limit),
        r <= max_scan_limit,
{
    match limit {
        Some(l) => if l <= max_scan_limit {
            l
        } else {
            max_scan_limit
        },
        None => max_scan_limit,
    }
}

/// Keeps the first `limit` items of a scan.
pub fn truncate_items(items: Vec<(Vec<u8>, Vec<u8>)>, limit: u32) -> (r: Vec<(Vec<u8>, Vec<u8>)>)
    ensures
        r@ == if items@.len() <= limit { items@ } else { items@.take(limit as int) },
{
    let mut items = items;
    let n = limit as usize;
    if n < items.len() {
        items.truncate(n);
    }
    items
}

/// The message of a transaction id the server does not know.
pub fn txn_not_found_message(txn_id: u64) -> (r: String)
    ensures
        r@ == "Transaction "@ + decimal(txn_id as nat) + " not found"@,
{
    let mut s = String::new();
    append_text(&mut s, "Transaction ");
    let d = decimal_text(txn_id);
    append_text(&mut s, d.as_str());
    append_text(&mut s, " not found");
    s
}

/// The message of a client that holds too many transactions.
pub fn txn_limit_message(peer: &str, max: usize) -> (r: String)
    ensures
        r@ == "Transaction limit exceeded for client "@ + peer@ + " (max: "@ + decimal(max as nat)
            + ")"@,
{
    let mut s = String::new();
    append_text(&mut s, "Transaction limit exceeded for client ");
    append_text(&mut s, peer);
    append_text(&mut s, " (max: ");
    let d = decimal_text(max as u64);
    append_text(&mut s, d.as_str());
    append_text(&mut s, ")");
    s
}

/// How long a transaction may stay unused before it is closed, in seconds.
pub const TXN_TIMEOUT_SECS: u64 = 300;

/// An open transaction: its id, and when it was created and last used.
#[derive(Debug, Clone, Copy, PartialEq, Eq, Structural)]
pub struct TxnEntry {
    pub id: u64,
    pub created_at: u64,
    pub last_access: u64,
}

/// The server's open transactions and the id the next one gets.
pub struct TxnRegistry {
    next_txn_id: u64,
    active: Vec<TxnEntry>,
}

/// The open transactions by id: when each was created and last used.
pub open spec fn entries_map(entries: Seq<TxnEntry>) -> Map<u64, (u64, u64)>
    decreases entries.len(),
{
    if entries.len() == 0 {
        Map::empty()
    } else {
        let e = entries.last();
        entries_map(entries.drop_last()).insert(e.id, (e.created_at, e.last_access))
    }
}

pub open spec fn ids_distinct(entries: Seq<TxnEntry>) -> bool {
    forall|i: int, j: int| 0 <= i < j < entries.len() ==> #[trigger] entries[i].id != #[trigger] entries[j].id
}

impl TxnRegistry {
    /// The open transactions.
    pub closed spec fn active(&self) -> Map<u64, (u64, u64)> {
        entries_map(self.active@)
    }

    /// The id the next transaction gets.
    pub closed spec fn next_id(&self) -> u64 {
        self.next_txn_id
    }

    /// Every open transaction has an id below the next one, and ids are
    /// distinct.
    pub closed spec fn wf(&self) -> bool {
        &&& ids_distinct(self.active@)
        &&& forall|i: int| 0 <= i < self.active@.len() ==> #[trigger] self.active@[i].id < self.next_txn_id
    }

    /// No transaction is open; the first gets id one.
    pub fn new() -> (r: Self)
        ensures
            r.wf(),
            r.active() == Map::<u64, (u64, u64)>::empty(),
            r.next_id() == 1,
    {
        TxnRegistry { next_txn_id: 1, active: Vec::new() }
    }

    proof fn lemma_entries_map(entries: Seq<TxnEntry>)
        requires
            ids_distinct(entries),
        ensures
            forall|i: int|
                0 <= i < entries.len() ==> #[trigger] entries_map(entries).contains_key(entries[i].id)
                    && entries_map(entries)[entries[i].id] == (entries[i].created_at, entries[i].last_access),
            forall|id: u64| #[trigger]
                entries_map(entries).contains_key(id) ==> exists|i: int| 0 <= i < entries.len() && entries[i].id == id,
        decreases entries.len(),
    {
        if entries.len() > 0 {
            let p = entries.drop_last();
            assert(ids_distinct(p));
            Self::lemma_entries_map(p);
            assert forall|i: int| 0 <= i < entries.len() implies #[trigger] entries_map(entries).contains_key(
                entries[i].id,
            ) && entries_map(entries)[entries[i].id] == (entries[i].created_at, entries[i].last_access) by {
                if i < entries.len() - 1 {
                    assert(p[i] == entries[i]);
                    assert(entries_map(p).contains_key(p[i].id));
                    assert(entries[i].id != entries[entries.len() - 1].id);
                }
            }
            assert forall|id: u64| #[trigger] entries_map(entries).contains_key(id) implies exists|i: int|
                0 <= i < entries.len() && entries[i].id == id by {
                if id != entries.last().id {
                    assert(entries_map(p).contains_key(id));
                    let i = choose|i: int| 0 <= i < p.len() && p[i].id == id;
                    assert(entries[i].id == id);
                } else {
                    assert(entries[entries.len() - 1].id == id);
                }
            }
        }
    }

    fn find(&self, txn_id: u64) -> (r: Option<usize>)
        requires
            self.wf(),
        ensures
            match r {
                Some(i) => i < self.active@.len() && self.active@[i as int].id == txn_id,
                None => !self.active().contains_key(txn_id),
            },
    {
        let mut i: usize = 0;
        while i < self.active.len()
            invariant
                0 <= i <= self.active@.len(),
                forall|j: int| 0 <= j < i ==> #[trigger] self.active@[j].id != txn_id,
            decreases self.active@.len() - i,
        {
            if self.active[i].id == txn_id {
                return Some(i);
            }
            i = i + 1;
        }
        proof {
            Self::lemma_entries_map(self.active@);
            if self.active().contains_key(txn_id) {
                let j = choose|j: int| 0 <= j < self.active@.len() && self.active@[j].id == txn_id;
                assert(self.active@[j].id != txn_id);
            }
        }
        None
    }

    /// Whether a transaction is open.
    pub fn contains(&self, txn_id: u64) -> (r: bool)
        requires
            self.wf(),
        ensures
            r == self.active().contains_key(txn_id),
    {
        proof {
            Self::lemma_entries_map(self.active@);
        }
        match self.find(txn_id) {
            Some(i) => true,
            None => false,
        }
    }

    /// The id the next transaction gets.
    pub fn next_txn_id(&self) -> (r: u64)
        ensures
            r == self.next_id(),
    {
        self.next_txn_id
    }

    /// The number of open transactions.
    pub fn len(&self) -> (r: usize)
        requires
            self.wf(),
        ensures
            r == self.active().len(),
    {
        proof {
            self.lemma_len();
        }
        self.active.len()
    }

    proof fn lemma_len(&self)
        requires
            self.wf(),
        ensures
            self.active().len() == self.active@.len(),
            self.active().dom().finite(),
    {
        lemma_entries_map_len(self.active@);
    }

    /// Registers a transaction the store has just opened, at time `now`:
    /// it gets the next id, which is handed back.
    pub fn begin(&mut self, now: u64) -> (r: u64)
        requires
            old(self).wf(),
            old(self).next_id() < u64::MAX,
        ensures
            final(self).wf(),
            r == old(self).next_id(),
            !old(self).active().contains_key(r),
            final(self).active() == old(self).active().insert(r, (now, now)),
            final(self).next_id() == old(self).next_id() + 1,
    {
        let id = self.next_txn_id;
        proof {
            Self::lemma_entries_map(self.active@);
            if entries_map(self.active@).contains_key(id) {
                let i = choose|i: int| 0 <= i < self.active@.len() && self.active@[i].id == id;
                assert(self.active@[i].id < self.next_txn_id);
            }
        }
        self.next_txn_id = id + 1;
        let ghost before = self.active@;
        self.active.push(TxnEntry { id, created_at: now, last_access: now });
        assert(self.active@.drop_last() =~= before);
        id
    }

    /// Closes a transaction: whether it was open.
    pub fn remove(&mut self, txn_id: u64) -> (r: bool)
        requires
            old(self).wf(),
        ensures
            final(self).wf(),
            r == old(self).active().contains_key(txn_id),
            final(self).active() == old(self).active().remove(txn_id),
            final(self).next_id() == old(self).next_id(),
    {
        proof {
            Self::lemma_entries_map(self.active@);
        }
        match self.find(txn_id) {
            Some(i) => {
                let ghost before = self.active@;
                self.active.remove(i);
                proof {
                    assert(self.active@ =~= before.remove(i as int));
                    assert(ids_distinct(self.active@)) by {
                        assert forall|a: int, b: int| 0 <= a < b < self.active@.len() implies #[trigger] self.active@[a].id
                            != #[trigger] self.active@[b].id by {
                            let a0 = if a < i { a } else { a + 1 };
                            let b0 = if b < i { b } else { b + 1 };
                            assert(self.active@[a] == before[a0]);
                            assert(self.active@[b] == before[b0]);
                        }
                    }
                    Self::lemma_entries_map(self.active@);
                    assert forall|k: u64| #[trigger] entries_map(self.active@).contains_key(k) <==> entries_map(
                        before,
                    ).remove(txn_id).contains_key(k) by {
                        if entries_map(self.active@).contains_key(k) {
                            let j = choose|j: int| 0 <= j < self.active@.len() && self.active@[j].id == k;
                            let j0 = if j < i { j } else { j + 1 };
                            assert(before[j0] == self.active@[j]);
                            assert(j0 != i);
                            assert(before[j0].id != before[i as int].id);
                        }
                        if entries_map(before).remove(txn_id).contains_key(k) {
                            let j = choose|j: int| 0 <= j < before.len() && before[j].id == k;
                            assert(j != i);
                            let j1 = if j < i { j } else { j - 1 };
                            assert(self.active@[j1] == before[j]);
                        }
                    }
                    assert forall|k: u64| #[trigger] entries_map(self.active@).contains_key(k) implies entries_map(
                        self.active@,
                    )[k] == entries_map(before).remove(txn_id)[k] by {
                        let j = choose|j: int| 0 <= j < self.active@.len() && self.active@[j].id == k;
                        let j0 = if j < i { j } else { j + 1 };
                        assert(before[j0] == self.active@[j]);
                    }
                    assert(entries_map(self.active@) =~= entries_map(before).remove(txn_id));
                }
                true
            },
            None => {
                assert(self.active() =~= self.active().remove(txn_id));
                false
            },
        }
    }

    /// Closes the transactions of a client that went away.
    pub fn remove_all(&mut self, ids: &Vec<u64>)
        requires
            old(self).wf(),
        ensures
            final(self).wf(),
            final(self).active() == old(self).active().remove_keys(ids@.to_set()),
            final(self).next_id() == old(self).next_id(),
    {
        let mut i: usize = 0;
        while i < ids.len()
            invariant
                0 <= i <= ids@.len(),
                self.wf(),
                self.active() == old(self).active().remove_keys(ids@.take(i as int).to_set()),
                self.next_id() == old(self).next_id(),
            decreases ids@.len() - i,
        {
            self.remove(ids[i]);
            proof {
                assert(ids@.take(i + 1) =~= ids@.take(i as int).push(ids@[i as int]));
                ids@.take(i as int).lemma_push_to_set_commute(ids@[i as int]);
                assert(old(self).active().remove_keys(ids@.take(i + 1).to_set()) =~= old(self).active().remove_keys(
                    ids@.take(i as int).to_set(),
                ).remove(ids@[i as int]));
            }
            i = i + 1;
        }
        assert(ids@.take(ids@.len() as int) =~= ids@);
    }

    /// Records a use of a transaction at time `now`: whether it is open.
    pub fn touch(&mut self, txn_id: u64, now: u64) -> (r: bool)
        requires
            old(self).wf(),
        ensures
            final(self).wf(),
            r == old(self).active().contains_key(txn_id),
            r ==> final(self).active() == old(self).active().insert(
                txn_id,
                (old(self).active()[txn_id].0, now),
            ),
            !r ==> final(self).active() == old(self).active(),
            final(self).next_id() == old(self).next_id(),
    {
        proof {
            Self::lemma_entries_map(self.active@);
        }
        match self.find(txn_id) {
            Some(i) => {
                let ghost before = self.active@;
                let e = self.active[i];
                proof {
                    assert(entries_map(before).contains_key(before[i as int].id));
                    assert(entries_map(before)[txn_id] == (e.created_at, e.last_access));
                }
                self.active.set(i, TxnEntry { id: e.id, created_at: e.created_at, last_access: now });
                proof {
                    assert(ids_distinct(self.active@)) by {
                        assert forall|a: int, b: int| 0 <= a < b < self.active@.len() implies #[trigger] self.active@[a].id
                            != #[trigger] self.active@[b].id by {
                            assert(self.active@[a].id == before[a].id);
                            assert(self.active@[b].id == before[b].id);
                        }
                    }
                    assert forall|j: int| 0 <= j < self.active@.len() implies #[trigger] self.active@[j].id
                        < self.next_txn_id by {
                        assert(self.active@[j].id == before[j].id);
                    }
                    Self::lemma_entries_map(self.active@);
                    let target = entries_map(before).insert(txn_id, (e.created_at, now));
                    assert forall|k: u64| #[trigger] entries_map(self.active@).contains_key(k) <==> target.contains_key(k) by {
                        if entries_map(self.active@).contains_key(k) {
                            let j = choose|j: int| 0 <= j < self.active@.len() && self.active@[j].id == k;
                            assert(before[j].id == k);
                        }
                        if k == txn_id {
                            assert(self.active@[i as int].id == k);
                        }
                        if target.contains_key(k) && k != txn_id {
                            let j = choose|j: int| 0 <= j < before.len() && before[j].id == k;
                            assert(self.active@[j].id == k);
                        }
                    }
                    assert forall|k: u64| #[trigger] entries_map(self.active@).contains_key(k) implies entries_map(
                        self.active@,
                    )[k] == target[k] by {
                        let j = choose|j: int| 0 <= j < self.active@.len() && self.active@[j].id == k;
                        if j != i {
                            assert(self.active@[j] == before[j]);
                        }
                    }
                    assert(entries_map(self.active@) =~= target);
                }
                true
            },
            None => false,
        }
    }

    /// Closes every transaction unused for longer than `timeout` at time
    /// `now` (a clock that seems to run backwards counts as no time passed),
    /// and hands back their ids.
    pub fn remove_expired(&mut self, now: u64, timeout: u64) -> (r: Vec<u64>)
        requires
            old(self).wf(),
        ensures
            final(self).wf(),
            final(self).next_id() == old(self).next_id(),
            final(self).active() == old(self).active().restrict(
                old(self).active().dom().filter(|id: u64| !expired(old(self).active()[id].1, now, timeout)),
            ),
            r@.to_set() == old(self).active().dom().filter(
                |id: u64| expired(old(self).active()[id].1, now, timeout),
            ),
    {
        let ghost before = self.active@;
        let mut kept: Vec<TxnEntry> = Vec::new();
        let mut gone: Vec<u64> = Vec::new();
        let mut i: usize = 0;
        while i < self.active.len()
            invariant
                0 <= i <= self.active@.len(),
                self.active@ == before,
                ids_distinct(before),
                kept@ == keep_fresh(before.take(i as int), now, timeout),
                gone@ == expired_ids(before.take(i as int), now, timeout),
            decreases self.active@.len() - i,
        {
            let e = self.active[i];
            assert(before.take(i + 1).drop_last() =~= before.take(i as int));
            let idle = if now >= e.last_access {
                now - e.last_access
            } else {
                0
            };
            if idle > timeout {
                gone.push(e.id);
            } else {
                kept.push(e);
            }
            i = i + 1;
        }
        assert(before.take(before.len() as int) =~= before);
        proof {
            lemma_keep_fresh(before, now, timeout);
        }
        self.active = kept;
        gone
    }
}

/// Whether a transaction last used at `last_access` has expired at `now`.
pub open spec fn expired(last_access: u64, now: u64, timeout: u64) -> bool {
    (if now >= last_access { now - last_access } else { 0 }) > timeout
}

pub open spec fn keep_fresh(entries: Seq<TxnEntry>, now: u64, timeout: u64) -> Seq<TxnEntry>
    decreases entries.len(),
{
    if entries.len() == 0 {
        Seq::empty()
    } else {
        let prev = keep_fresh(entries.drop_last(), now, timeout);
        if expired(entries.last().last_access, now, timeout) {
            prev
        } else {
            prev.push(entries.last())
        }
    }
}

pub open spec fn expired_ids(entries: Seq<TxnEntry>, now: u64, timeout: u64) -> Seq<u64>
    decreases entries.len(),
{
    if entries.len() == 0 {
        Seq::empty()
    } else {
        let prev = expired_ids(entries.drop_last(), now, timeout);
        if expired(entries.last().last_access, now, timeout) {
            prev.push(entries.last().id)
        } else {
            prev
        }
    }
}

proof fn lemma_entries_map_len(entries: Seq<TxnEntry>)
    requires
        ids_distinct(entries),
    ensures
        entries_map(entries).dom().finite(),
        entries_map(entries).len() == entries.len(),
    decreases entries.len(),
{
    if entries.len() > 0 {
        let p = entries.drop_last();
        assert(ids_distinct(p));
        lemma_entries_map_len(p);
        TxnRegistry::lemma_entries_map(p);
        if entries_map(p).contains_key(entries.last().id) {
            let i = choose|i: int| 0 <= i < p.len() && p[i].id == entries.last().id;
            assert(entries[i].id == entries[entries.len() - 1].id);
        }
    }
}

/// Of distinct-id entries, the fresh ones keep distinct ids below any bound
/// the old ones were below, their map is the old map restricted to fresh
/// transactions, and the expired ids are exactly the expired transactions.
proof fn lemma_keep_fresh(entries: Seq<TxnEntry>, now: u64, timeout: u64)
    requires
        ids_distinct(entries),
    ensures
        ids_distinct(keep_fresh(entries, now, timeout)),
        forall|j: int|
            0 <= j < keep_fresh(entries, now, timeout).len() ==> exists|i: int|
                0 <= i < entries.len() && entries[i] == #[trigger] keep_fresh(entries, now, timeout)[j],
        entries_map(keep_fresh(entries, now, timeout)) == entries_map(entries).restrict(
            entries_map(entries).dom().filter(|id: u64| !expired(entries_map(entries)[id].1, now, timeout)),
        ),
        expired_ids(entries, now, timeout).to_set() == entries_map(entries).dom().filter(
            |id: u64| expired(entries_map(entries)[id].1, now, timeout),
        ),
    decreases entries.len(),
{
    if entries.len() > 0 {
        let p = entries.drop_last();
        let e = entries.last();
        assert(ids_distinct(p));
        lemma_keep_fresh(p, now, timeout);
        TxnRegistry::lemma_entries_map(p);
        TxnRegistry::lemma_entries_map(entries);
        let kp = keep_fresh(p, now, timeout);
        let k = keep_fresh(entries, now, timeout);
        assert(!entries_map(p).contains_key(e.id)) by {
            if entries_map(p).contains_key(e.id) {
                let i = choose|i: int| 0 <= i < p.len() && p[i].id == e.id;
                assert(entries[i].id == entries[entries.len() - 1].id);
            }
        }
        assert forall|j: int| 0 <= j < k.len() implies exists|i: int|
            0 <= i < entries.len() && entries[i] == #[trigger] k[j] by {
            if j < kp.len() {
                let i = choose|i: int| 0 <= i < p.len() && p[i] == kp[j];
                assert(entries[i] == p[i]);
            } else {
                assert(entries[entries.len() - 1] == k[j]);
            }
        }
        assert(ids_distinct(k)) by {
            assert forall|a: int, b: int| 0 <= a < b < k.len() implies #[trigger] k[a].id != #[trigger] k[b].id by {
                if b == kp.len() {
                    let i = choose|i: int| 0 <= i < p.len() && p[i] == kp[a];
                    assert(entries[i].id != entries[entries.len() - 1].id);
                }
            }
        }
        let m = entries_map(entries);
        let mp = entries_map(p);
        assert(m == mp.insert(e.id, (e.created_at, e.last_access)));
        let rhs = m.restrict(m.dom().filter(|id: u64| !expired(m[id].1, now, timeout)));
        let rp = mp.restrict(mp.dom().filter(|id: u64| !expired(mp[id].1, now, timeout)));
        assert(entries_map(kp) == rp);
        assert(!entries_map(kp).contains_key(e.id));
        if expired(e.last_access, now, timeout) {
            assert(k == kp);
        } else {
            assert(k.drop_last() =~= kp);
            assert(k.last() == e);
            assert(entries_map(k) == entries_map(kp).insert(e.id, (e.created_at, e.last_access)));
        }
        assert forall|id: u64| #[trigger] rhs.contains_key(id) <==> entries_map(k).contains_key(id) by {
            if id != e.id {
                assert(m.contains_key(id) == mp.contains_key(id));
                if m.contains_key(id) {
                    assert(m[id] == mp[id]);
                }
            }
        }
        assert forall|id: u64| #[trigger] rhs.contains_key(id) implies rhs[id] == entries_map(k)[id] by {
            if id != e.id {
                assert(m[id] == mp[id]);
            }
        }
        assert(entries_map(k) =~= rhs);
        assert(expired_ids(entries, now, timeout).to_set() =~= m.dom().filter(
            |id: u64| expired(m[id].1, now, timeout),
        )) by {
            let ep = expired_ids(p, now, timeout);
            if expired(e.last_access, now, timeout) {
                ep.lemma_push_to_set_commute(e.id);
            }
        }
    }
}

/// A client connection's open transactions.
pub struct ClientSession {
    pub transactions: Vec<u64>,
    pub transaction_count: usize,
}

/// What the server does with a request.
pub enum RequestPlan {
    /// Answer at once, without the store.
    Reply(Response),
    Get { key: Vec<u8> },
    Put { key: Vec<u8>, value: Vec<u8> },
    Delete { key: Vec<u8> },
    /// Scan from `start` (included) to `end` (excluded), at most `limit` items.
    Scan { start: Option<Vec<u8>>, end: Option<Vec<u8>>, limit: u32 },
    /// Open a transaction in the store, then register it with `begin`.
    BeginTxn,
    /// Commit the transaction, which was open and is now closed here.
    CommitTxn { txn_id: u64 },
    TxnGet { txn_id: u64, key: Vec<u8> },
    TxnPut { txn_id: u64, key: Vec<u8>, value: Vec<u8> },
    TxnDelete { txn_id: u64, key: Vec<u8> },
}

/// The error response with the given message.
pub open spec fn is_error_with(p: RequestPlan, message: Seq<char>) -> bool {
    p matches RequestPlan::Reply(Response::Error { message: m }) && m@ == message
}

/// Removes every occurrence of an id.
fn remove_id(v: &mut Vec<u64>, id: u64)
    ensures
        final(v)@ == old(v)@.filter(|x: u64| x != id),
{
    let ghost before = v@;
    let mut out: Vec<u64> = Vec::new();
    let mut i: usize = 0;
    while i < v.len()
        invariant
            0 <= i <= v@.len(),
            v@ == before,
            out@ == before.take(i as int).filter(|x: u64| x != id),
        decreases v@.len() - i,
    {
        let x = v[i];
        assert(before.take(i + 1).drop_last() =~= before.take(i as int));
        reveal_with_fuel(Seq::filter, 1);
        if x != id {
            out.push(x);
        }
        i = i + 1;
    }
    assert(before.take(before.len() as int) =~= before);
    *v = out;
}

fn contains_id(v: &Vec<u64>, id: u64) -> (r: bool)
    ensures
        r == v@.contains(id),
{
    let mut i: usize = 0;
    while i < v.len()
        invariant
            0 <= i <= v@.len(),
            forall|j: int| 0 <= j < i ==> v@[j] != id,
        decreases v@.len() - i,
    {
        if v[i] == id {
            return true;
        }
        i = i + 1;
    }
    false
}

/// Decides what to do with a request from a client (shown as `peer`), at
/// time `now`.
///
/// - No operation: an error.
/// - A scan is capped at the server's limit; a cap of zero is an error.
/// - A client may hold only so many transactions.
/// - A commit closes the transaction (and drops it from the client) first,
///   and is an error when it was not open.
/// - Work inside a transaction marks it used, and is an error when it is not
///   open.
pub fn plan_request(
    request: Option<Request>,
    session: &mut ClientSession,
    registry: &mut TxnRegistry,
    config: &SecurityConfig,
    peer: &str,
    now: u64,
) -> (r: RequestPlan)
    requires
        old(registry).wf(),
    ensures
        final(registry).wf(),
        final(registry).next_id() == old(registry).next_id(),
        !(request matches Some(Request::CommitTxn { .. })) ==> final(session).transactions@ == old(
            session,
        ).transactions@ && final(session).transaction_count == old(session).transaction_count,
        match request {
            None => is_error_with(r, "Invalid request: no operation specified"@)
                && final(registry).active() == old(registry).active(),
            Some(Request::Scan { start, end, limit }) => {
                let l = spec_effective_limit(limit, config.max_scan_limit);
                &&& l == 0 ==> is_error_with(r, "Invalid scan limit: 0"@)
                &&& l != 0 ==> r == (RequestPlan::Scan { start, end, limit: l })
                &&& final(registry).active() == old(registry).active()
            },
            Some(Request::BeginTxn) => {
                &&& old(session).transactions@.len() >= config.max_transactions_per_client
                    ==> is_error_with(
                    r,
                    "Transaction limit exceeded for client "@ + peer@ + " (max: "@ + decimal(
                        config.max_transactions_per_client as nat,
                    ) + ")"@,
                )
                &&& old(session).transactions@.len() < config.max_transactions_per_client ==> r is BeginTxn
                &&& final(registry).active() == old(registry).active()
            },
            Some(Request::CommitTxn { txn_id }) => {
                &&& final(registry).active() == old(registry).active().remove(txn_id)
                &&& final(session).transactions@ == old(session).transactions@.filter(|x: u64| x != txn_id)
                &&& old(session).transactions@.contains(txn_id) ==> final(session).transaction_count == (
                    if old(session).transaction_count > 0 { old(session).transaction_count - 1 } else { 0 })
                &&& old(registry).active().contains_key(txn_id) ==> r == (RequestPlan::CommitTxn { txn_id })
                &&& !old(registry).active().contains_key(txn_id) ==> is_error_with(
                    r,
                    "Transaction "@ + decimal(txn_id as nat) + " not found"@,
                )
            },
            Some(Request::TxnGet { txn_id, key }) => {
                &&& old(registry).active().contains_key(txn_id) ==> r == (RequestPlan::TxnGet { txn_id, key })
                    && final(registry).active() == old(registry).active().insert(
                    txn_id,
                    (old(registry).active()[txn_id].0, now),
                )
                &&& !old(registry).active().contains_key(txn_id) ==> is_error_with(
                    r,
                    "Transaction "@ + decimal(txn_id as nat) + " not found"@,
                ) && final(registry).active() == old(registry).active()
            },
            Some(Request::TxnPut { txn_id, key, value }) => {
                &&& old(registry).active().contains_key(txn_id) ==> r == (RequestPlan::TxnPut {
                    txn_id,
                    key,
                    value,
                }) && final(registry).active() == old(registry).active().insert(
                    txn_id,
                    (old(registry).active()[txn_id].0, now),
                )
                &&& !old(registry).active().contains_key(txn_id) ==> is_error_with(
                    r,
                    "Transaction "@ + decimal(txn_id as nat) + " not found"@,
                ) && final(registry).active() == old(registry).active()
            },
            Some(Request::TxnDelete { txn_id, key }) => {
                &&& old(registry).active().contains_key(txn_id) ==> r == (RequestPlan::TxnDelete {
                    txn_id,
                    key,
                }) && final(registry).active() == old(registry).active().insert(
                    txn_id,
                    (old(registry).active()[txn_id].0, now),
                )
                &&& !old(registry).active().contains_key(txn_id) ==> is_error_with(
                    r,
                    "Transaction "@ + decimal(txn_id as nat) + " not found"@,
                ) && final(registry).active() == old(registry).active()
            },
            Some(Request::Get { key }) => r == (RequestPlan::Get { key }) && final(registry).active()
                == old(registry).active(),
            Some(Request::Put { key, value }) => r == (RequestPlan::Put { key, value })
                && final(registry).active() == old(registry).active(),
            Some(Request::Delete { key }) => r == (RequestPlan::Delete { key })
                && final(registry).active() == old(registry).active(),
        },
{
    match request {
        None => {
            let mut m = String::new();
            append_text(&mut m, "Invalid request: no operation specified");
            RequestPlan::Reply(Response::Error { message: m })
        },
        Some(Request::Get { key }) => RequestPlan::Get { key },
        Some(Request::Put { key, value }) => RequestPlan::Put { key, value },
        Some(Request::Delete { key }) => RequestPlan::Delete { key },
        Some(Request::Scan { start, end, limit }) => {
            let l = effective_scan_limit(limit, config.max_scan_limit);
            if l == 0 {
                let mut m = String::new();
                append_text(&mut m, "Invalid scan limit: 0");
                RequestPlan::Reply(Response::Error { message: m })
            } else {
                RequestPlan::Scan { start, end, limit: l }
            }
        },
        Some(Request::BeginTxn) => {
            if session.transactions.len() >= config.max_transactions_per_client {
                RequestPlan::Reply(
                    Response::Error {
                        message: txn_limit_message(peer, config.max_transactions_per_client),
                    },
                )
            } else {
                RequestPlan::BeginTxn
            }
        },
        Some(Request::CommitTxn { txn_id }) => {
            let existed = registry.remove(txn_id);
            if contains_id(&session.transactions, txn_id) {
                remove_id(&mut session.transactions, txn_id);
                session.transaction_count = if session.transaction_count > 0 {
                    session.transaction_count - 1
                } else {
                    0
                };
            } else {
                remove_id(&mut session.transactions, txn_id);
            }
            if existed {
                RequestPlan::CommitTxn { txn_id }
            } else {
                RequestPlan::Reply(Response::Error { message: txn_not_found_message(txn_id) })
            }
        },
        Some(Request::TxnGet { txn_id, key }) => {
            if registry.touch(txn_id, now) {
                RequestPlan::TxnGet { txn_id, key }
            } else {
                RequestPlan::Reply(Response::Error { message: txn_not_found_message(txn_id) })
            }
        },
        Some(Request::TxnPut { txn_id, key, value }) => {
            if registry.touch(txn_id, now) {
                RequestPlan::TxnPut { txn_id, key, value }
            } else {
                RequestPlan::Reply(Response::Error { message: txn_not_found_message(txn_id) })
            }
        },
        Some(Request::TxnDelete { txn_id, key }) => {
            if registry.touch(txn_id, now) {
                RequestPlan::TxnDelete { txn_id, key }
            } else {
                RequestPlan::Reply(Response::Error { message: txn_not_found_message(txn_id) })
            }
        },
    }
}

/// Registers a transaction the store opened for a client: it gets the next
/// id, and the client holds it.
pub fn register_transaction(session: &mut ClientSession, registry: &mut TxnRegistry, now: u64) -> (r: u64)
    requires
        old(registry).wf(),
        old(registry).next_id() < u64::MAX,
        old(session).transaction_count < usize::MAX,
    ensures
        final(registry).wf(),
        r == old(registry).next_id(),
        final(registry).active() == old(registry).active().insert(r, (now, now)),
        final(registry).next_id() == r + 1,
        final(session).transactions@ == old(session).transactions@.push(r),
        final(session).transaction_count == old(session).transaction_count + 1,
{
    let id = registry.begin(now);
    session.transactions.push(id);
    session.transaction_count = session.transaction_count + 1;
    id
}

/// A transaction just registered is open under a fresh id; once committed
/// it is no longer open, and a second commit of it is answered "not found".
pub proof fn lemma_commit_closes(before: Map<u64, (u64, u64)>, id: u64, now: u64)
    requires
        !before.contains_key(id),
    ensures
        before.insert(id, (now, now)).contains_key(id),
        before.insert(id, (now, now)).remove(id) == before,
        !before.insert(id, (now, now)).remove(id).contains_key(id),
{
    assert(before.insert(id, (now, now)).remove(id) =~= before);
}

} // verus!
