//! Which entries a compaction writes out. Entries come in key order (user
//! key ascending, newest version first); each is kept or dropped, and a kept
//! entry may start a new output table.
use vstd::prelude::*;
use bytes::Bytes;
use crate::buffer::{bytes_contents, bytes_as_slice};
use crate::key_order::bytes_equal;
use crate::key::{KeySlice, KeyView, Type, TTL_DEFAULT, spec_is_expired};

verus! {

/// A rule that drops entries at or below the watermark.
pub enum CompactionFilter {
    /// Drops entries whose user key starts with these bytes.
    Prefix(Bytes),
}

/// The prefix a filter drops, as plain bytes.
pub open spec fn filter_prefix(f: CompactionFilter) -> Seq<u8> {
    match f {
        CompactionFilter::Prefix(b) => bytes_contents(b),
    }
}

/// What a compaction does with an entry.
#[derive(Debug, Clone, Copy, PartialEq, Eq, Structural)]
pub enum EntryAction {
    /// The entry is not written out.
    Skip,
    /// The entry is written out, into a new table when `new_table` holds.
    Add { new_table: bool },
}

/// The fixed inputs of a compaction's entry rules.
#[derive(Debug, Clone, Copy)]
pub struct EntryRules {
    /// The oldest timestamp a reader may still ask for.
    pub watermark: u64,
    /// Whether the output is the bottom level.
    pub compact_to_bottom_level: bool,
    /// The time expiry is judged at, in seconds.
    pub current_time: u64,
    /// The table size at which a new output table is started.
    pub target_sst_size: usize,
}

/// What the rules remember between entries: the user key of the last entry
/// they settled, and whether the next entry at or below the watermark would
/// be the newest such version of its key.
pub struct FilterState {
    pub last_key: Seq<u8>,
    pub first_key_below_watermark: bool,
}

/// Whether `key` starts with `prefix`.
pub open spec fn has_prefix(key: Seq<u8>, prefix: Seq<u8>) -> bool {
    prefix.len() <= key.len() && key.take(prefix.len() as int) == prefix
}

/// Whether any of the prefixes starts `key`.
pub open spec fn any_prefix_matches(prefixes: Seq<Seq<u8>>, key: Seq<u8>) -> bool {
    exists|i: int| 0 <= i < prefixes.len() && has_prefix(key, #[trigger] prefixes[i])
}

/// One entry through the rules: given the state, an entry's key and the size
/// of the table being written, what happens to the entry and the next state.
///
/// - A new user key makes the next version at or below the watermark the
///   newest such one.
/// - At the bottom level, the newest version of a key at or below the
///   watermark is dropped when it is a tombstone or has expired.
/// - At or below the watermark only the newest version of a key is kept, and
///   not when a filter prefix starts its key.
/// - A kept entry of a new user key starts a new table once the current one
///   has reached the target size.
pub open spec fn spec_step(
    rules: EntryRules,
    prefixes: Seq<Seq<u8>>,
    st: FilterState,
    k: KeyView,
    table_size: nat,
) -> (EntryAction, FilterState) {
    let same = k.bytes == st.last_key;
    let first = if !same { true } else { st.first_key_below_watermark };
    let below = k.ts <= rules.watermark;
    let dropped_at_bottom = rules.compact_to_bottom_level && !same && below && (k.key_type
        == Type::DELETE || (k.ttl != TTL_DEFAULT && spec_is_expired(k.ttl, rules.current_time)));
    if dropped_at_bottom {
        (EntryAction::Skip, FilterState { last_key: k.bytes, first_key_below_watermark: false })
    } else if below && !first {
        (EntryAction::Skip, FilterState { last_key: st.last_key, first_key_below_watermark: false })
    } else if below && any_prefix_matches(prefixes, k.bytes) {
        (EntryAction::Skip, FilterState { last_key: st.last_key, first_key_below_watermark: false })
    } else {
        (
            EntryAction::Add { new_table: table_size >= rules.target_sst_size && !same },
            FilterState { last_key: k.bytes, first_key_below_watermark: if below { false } else { first } },
        )
    }
}

/// Above the bottom level nothing of a new user key at or below the
/// watermark is dropped unless a filter prefix starts its key: tombstones
/// and expired entries stay, so they keep hiding older versions below.
pub proof fn lemma_kept_above_bottom(
    rules: EntryRules,
    prefixes: Seq<Seq<u8>>,
    st: FilterState,
    k: KeyView,
    table_size: nat,
)
    requires
        !rules.compact_to_bottom_level,
        k.bytes != st.last_key,
        k.ts <= rules.watermark,
        !any_prefix_matches(prefixes, k.bytes),
    ensures
        spec_step(rules, prefixes, st, k, table_size).0 is Add,
        spec_step(rules, prefixes, st, k, table_size).1.last_key == k.bytes,
{
}

/// An entry newer than the watermark is always written out, whatever its
/// type, expiry or key, and at whatever level.
pub proof fn lemma_newer_than_watermark_kept(
    rules: EntryRules,
    prefixes: Seq<Seq<u8>>,
    st: FilterState,
    k: KeyView,
    table_size: nat,
)
    requires
        k.ts > rules.watermark,
    ensures
        spec_step(rules, prefixes, st, k, table_size).0 is Add,
{
}

/// The entry rules of one compaction run.
pub struct EntryFilter {
    rules: EntryRules,
    filters: Vec<CompactionFilter>,
    last_key: Vec<u8>,
    first_key_below_watermark: bool,
}

impl EntryFilter {
    pub closed spec fn rules(&self) -> EntryRules {
        self.rules
    }

    /// The filters' prefixes, in order.
    pub closed spec fn prefixes(&self) -> Seq<Seq<u8>> {
        self.filters@.map_values(|f: CompactionFilter| filter_prefix(f))
    }

    pub closed spec fn state(&self) -> FilterState {
        FilterState { last_key: self.last_key@, first_key_below_watermark: self.first_key_below_watermark }
    }

    /// Starts a run: no entry settled yet.
    pub fn new(rules: EntryRules, filters: Vec<CompactionFilter>) -> (r: Self)
        ensures
            r.rules() == rules,
            r.prefixes() == filters@.map_values(|f: CompactionFilter| filter_prefix(f)),
            r.state() == (FilterState { last_key: Seq::empty(), first_key_below_watermark: false }),
    {
        EntryFilter { rules, filters, last_key: Vec::new(), first_key_below_watermark: false }
    }

    /// Settles the next entry, given the size the table being written has
    /// reached.
    pub fn next_entry(&mut self, key: KeySlice, table_size: usize) -> (r: EntryAction)
        ensures
            final(self).rules() == old(self).rules(),
            final(self).prefixes() == old(self).prefixes(),
            (r, final(self).state()) == spec_step(
                old(self).rules(),
                old(self).prefixes(),
                old(self).state(),
                key@,
                table_size as nat,
            ),
            key@.ts > old(self).rules().watermark ==> r is Add,
            r == (EntryAction::Add { new_table: true }) ==> key@.bytes != old(self).state().last_key,
    {
        let bytes = key.key_ref();
        let same = bytes_equal(bytes, self.last_key.as_slice());
        if !same {
            self.first_key_below_watermark = true;
        }
        let below = key.ts() <= self.rules.watermark;
        let kt = key.key_type();
        let ttl = key.ttl();
        let is_delete = match kt {
            Type::DELETE => true,
            Type::PUT => false,
        };
        if self.rules.compact_to_bottom_level && !same && below && (is_delete || (ttl != TTL_DEFAULT
            && key.is_expired(self.rules.current_time))) {
            self.last_key = vstd::slice::slice_to_vec(bytes);
            self.first_key_below_watermark = false;
            return EntryAction::Skip;
        }
        if below {
            if !self.first_key_below_watermark {
                return EntryAction::Skip;
            }
            self.first_key_below_watermark = false;
            if self.matches_filter(bytes) {
                return EntryAction::Skip;
            }
        }
        let new_table = table_size >= self.rules.target_sst_size && !same;
        if !same {
            self.last_key = vstd::slice::slice_to_vec(bytes);
        }
        EntryAction::Add { new_table }
    }

    fn matches_filter(&self, key: &[u8]) -> (r: bool)
        ensures
            r == any_prefix_matches(self.prefixes(), key@),
    {
        let mut i: usize = 0;
        while i < self.filters.len()
            invariant
                0 <= i <= self.filters@.len(),
                forall|j: int| 0 <= j < i ==> !has_prefix(key@, #[trigger] self.prefixes()[j]),
            decreases self.filters@.len() - i,
        {
            let p = match &self.filters[i] {
                CompactionFilter::Prefix(b) => bytes_as_slice(b),
            };
            assert(p@ == self.prefixes()[i as int]);
            if starts_with(key, p) {
                return true;
            }
            i = i + 1;
        }
        false
    }
}

/// Whether `key` starts with `prefix`.
pub fn starts_with(key: &[u8], prefix: &[u8]) -> (r: bool)
    ensures
        r == has_prefix(key@, prefix@),
{
    if prefix.len() > key.len() {
        return false;
    }
    let mut i: usize = 0;
    while i < prefix.len()
        invariant
            0 <= i <= prefix@.len() <= key@.len(),
            key@.take(i as int) == prefix@.take(i as int),
        decreases prefix@.len() - i,
    {
        if key[i] != prefix[i] {
            assert(key@.take(prefix@.len() as int)[i as int] != prefix@[i as int]);
            return false;
        }
        assert(key@.take(i + 1) =~= key@.take(i as int).push(key@[i as int]));
        assert(prefix@.take(i + 1) =~= prefix@.take(i as int).push(prefix@[i as int]));
        i = i + 1;
    }
    assert(prefix@.take(prefix@.len() as int) =~= prefix@);
    true
}

/// Of the versions of one user key at or below the watermark, arriving one
/// after the other, the later is always dropped: a compaction keeps at most
/// the newest version of a key that no reader can tell apart from older ones.
pub proof fn lemma_one_version_below_watermark(
    rules: EntryRules,
    prefixes: Seq<Seq<u8>>,
    st: FilterState,
    k1: KeyView,
    k2: KeyView,
    size1: nat,
    size2: nat,
)
    requires
        k1.bytes == k2.bytes,
        k1.ts <= rules.watermark,
        k2.ts <= rules.watermark,
    ensures
        spec_step(rules, prefixes, spec_step(rules, prefixes, st, k1, size1).1, k2, size2).0
            == EntryAction::Skip,
{
}

/// Versions newer than the watermark are always written out, whatever came
/// before them.
pub proof fn lemma_above_watermark_kept(
    rules: EntryRules,
    prefixes: Seq<Seq<u8>>,
    st: FilterState,
    k: KeyView,
    size: nat,
)
    requires
        k.ts > rules.watermark,
    ensures
        spec_step(rules, prefixes, st, k, size).0 is Add,
{
}

} // verus!
