//! Iterators over sorted entries, and the iterator that merges several of
//! them, newest source first among equal keys.
use vstd::prelude::*;
use crate::error::LsmError;
use crate::key::{KeyBytes, KeySlice, KeyVec, KeyView, key_lt, key_ties};
use crate::key_order::{key_less, key_greater, key_same, lemma_key_order_total};

verus! {

/// An entry as plain values: its key and its value.
pub type EntryView = (KeyView, Seq<u8>);

/// Whether entries come in key order.
pub open spec fn sorted_entries(s: Seq<EntryView>) -> bool {
    forall|i: int, j: int| 0 <= i < j < s.len() ==> !key_greater(#[trigger] s[i].0, #[trigger] s[j].0)
}

/// An iterator over entries in key order.
pub trait StorageIterator {
    /// The entries still to come, in order.
    spec fn entries(&self) -> Seq<EntryView>;

    /// How many underlying iterators are still running.
    spec fn active_count(&self) -> nat;

    /// Whether moving on can never fail: the iterator reads nothing that
    /// may give an error.
    spec fn infallible(&self) -> bool;

    /// The key of the current entry.
    fn key(&self) -> (r: KeySlice<'_>)
        requires
            self.entries().len() > 0,
        ensures
            r@ == self.entries()[0].0,
    ;

    /// The value of the current entry.
    fn value(&self) -> (r: &[u8])
        requires
            self.entries().len() > 0,
        ensures
            r@ == self.entries()[0].1,
    ;

    /// Whether there is a current entry.
    fn is_valid(&self) -> (r: bool)
        ensures
            r == (self.entries().len() > 0),
    ;

    /// Moves to the next entry.
    fn next(&mut self) -> (r: Result<(), LsmError>)
        requires
            old(self).entries().len() > 0,
        ensures
            r is Ok ==> final(self).entries() == old(self).entries().drop_first(),
            old(self).infallible() ==> r is Ok && final(self).infallible(),
    ;

    /// How many underlying iterators are still running.
    fn num_active_iterators(&self) -> (r: usize)
        ensures
            r == self.active_count(),
    ;
}

/// An iterator over entries held in memory.
pub struct MemIterator {
    entries: Vec<(KeyVec, Vec<u8>)>,
    pos: usize,
}

pub open spec fn entry_views(s: Seq<(KeyVec, Vec<u8>)>) -> Seq<EntryView> {
    s.map_values(|e: (KeyVec, Vec<u8>)| (e.0@, e.1@))
}

impl MemIterator {
    /// An iterator at the first of the entries.
    pub fn create(entries: Vec<(KeyVec, Vec<u8>)>) -> (r: Self)
        ensures
            r.entries() == entry_views(entries@),
            r.infallible(),
    {
        let r = MemIterator { entries, pos: 0 };
        assert(entry_views(r.entries@).skip(0) =~= entry_views(r.entries@));
        r
    }
}

impl StorageIterator for MemIterator {
    closed spec fn entries(&self) -> Seq<EntryView> {
        if self.pos <= self.entries@.len() {
            entry_views(self.entries@).skip(self.pos as int)
        } else {
            Seq::empty()
        }
    }

    closed spec fn active_count(&self) -> nat {
        1
    }

    /// Entries held in memory are always there to move over.
    closed spec fn infallible(&self) -> bool {
        true
    }

    fn key(&self) -> (r: KeySlice<'_>) {
        self.entries[self.pos].0.as_key_slice()
    }

    fn value(&self) -> (r: &[u8]) {
        self.entries[self.pos].1.as_slice()
    }

    fn is_valid(&self) -> (r: bool) {
        self.pos < self.entries.len()
    }

    fn next(&mut self) -> (r: Result<(), LsmError>)
        ensures
            r is Ok,
    {
        let n = self.entries.len();
        assert(self.pos < self.entries@.len()) by {
            if self.pos >= self.entries@.len() {
                assert(entry_views(self.entries@).skip(self.pos as int).len() == 0);
            }
        }
        self.pos = self.pos + 1;
        assert(entry_views(self.entries@).skip(self.pos as int) =~= entry_views(self.entries@).skip(
            self.pos - 1,
        ).drop_first());
        Ok(())
    }

    fn num_active_iterators(&self) -> (r: usize) {
        1
    }
}

/// An iterator together with its position among the merged ones; a lower
/// position is a newer source.
pub struct HeapWrapper<I: StorageIterator>(pub usize, pub Box<I>);

/// Whether entry key `a` of source `ai` comes out before key `b` of source
/// `bi`: a smaller key first, and of equal keys the newer source's.
pub open spec fn comes_before(ai: usize, a: KeyView, bi: usize, b: KeyView) -> bool {
    key_less(a, b) || (key_same(a, b) && ai < bi)
}

/// The current key of a wrapped iterator.
pub open spec fn head<I: StorageIterator>(w: HeapWrapper<I>) -> KeyView {
    w.1.entries()[0].0
}

/// Whether wrapped iterator `a` comes out before `b`.
pub open spec fn wrapper_before<I: StorageIterator>(a: HeapWrapper<I>, b: HeapWrapper<I>) -> bool {
    comes_before(a.0, head(a), b.0, head(b))
}

/// The waiting iterators: each has a current entry, and they are ordered by
/// what they would give next.
pub open spec fn queue_ok<I: StorageIterator>(q: Seq<HeapWrapper<I>>) -> bool {
    &&& forall|i: int| 0 <= i < q.len() ==> (#[trigger] q[i]).1.entries().len() > 0
    &&& forall|i: int, j: int| 0 <= i < j < q.len() ==> wrapper_before(#[trigger] q[i], #[trigger] q[j])
}

/// Whether the positions of the waiting iterators and the current one are
/// all distinct.
pub open spec fn positions_distinct<I: StorageIterator>(q: Seq<HeapWrapper<I>>, c: Option<HeapWrapper<I>>) -> bool {
    &&& forall|i: int, j: int| 0 <= i < j < q.len() ==> (#[trigger] q[i]).0 != (#[trigger] q[j]).0
    &&& forall|i: int| 0 <= i < q.len() ==> (c matches Some(w) ==> (#[trigger] q[i]).0 != w.0)
}

/// Whether the positions of iterators are distinct.
pub open spec fn distinct_positions<I: StorageIterator>(q: Seq<HeapWrapper<I>>) -> bool {
    forall|i: int, j: int| 0 <= i < j < q.len() ==> (#[trigger] q[i]).0 != (#[trigger] q[j]).0
}

/// The waiting iterators by position, each with the entries it still holds.
pub open spec fn queue_sources<I: StorageIterator>(q: Seq<HeapWrapper<I>>) -> Map<usize, Seq<EntryView>> {
    Map::new(
        |p: usize| exists|i: int| 0 <= i < q.len() && (#[trigger] q[i]).0 == p,
        |p: usize| q[choose|i: int| 0 <= i < q.len() && (#[trigger] q[i]).0 == p].1.entries(),
    )
}

/// Whether `t` is what is left of `s` once some leading entries, each with
/// key `k`, are skipped.
pub open spec fn skipped_at(s: Seq<EntryView>, t: Seq<EntryView>, k: KeyView) -> bool {
    exists|n: int| 0 <= n <= s.len() && t == s.skip(n) && forall|j: int| 0 <= j < n ==> (#[trigger] s[j]).0 == k
}

/// The entries a source still holds after a move, none when it is gone.
pub open spec fn left_of(m: Map<usize, Seq<EntryView>>, p: usize) -> Seq<EntryView> {
    if m.contains_key(p) {
        m[p]
    } else {
        Seq::empty()
    }
}

/// The sources of a merge as seen from outside: each holds entries; the
/// merge is at an entry exactly when some source holds one; then the current
/// position holds the current key first, and every other source's first key
/// comes after it (a smaller key, or an equal key at a lower position, comes
/// first).
pub open spec fn heads_ordered(src: Map<usize, Seq<EntryView>>, valid: bool, pos: usize, key: KeyView) -> bool {
    &&& forall|p: usize| #[trigger] src.contains_key(p) ==> src[p].len() > 0
    &&& valid <==> (exists|p: usize| #[trigger] src.contains_key(p))
    &&& valid ==> src.contains_key(pos) && src[pos][0].0 == key
    &&& valid ==> forall|p: usize|
        #[trigger] src.contains_key(p) && p != pos ==> comes_before(pos, key, p, src[p][0].0)
}

/// The sources of waiting iterators and a current one that still hold
/// entries, by position.
pub open spec fn all_sources<I: StorageIterator>(q: Seq<HeapWrapper<I>>, c: Option<HeapWrapper<I>>) -> Map<
    usize,
    Seq<EntryView>,
> {
    match c {
        Some(w) => if w.1.entries().len() > 0 {
            queue_sources(q).insert(w.0, w.1.entries())
        } else {
            queue_sources(q)
        },
        None => queue_sources(q),
    }
}

/// How far the waiting sources `m` have got from `m0`: no new source, and
/// each one only past leading entries at key `k`.
pub open spec fn queue_progress(m0: Map<usize, Seq<EntryView>>, m: Map<usize, Seq<EntryView>>, k: KeyView) -> bool {
    &&& forall|p: usize| #[trigger] m.contains_key(p) ==> m0.contains_key(p)
    &&& forall|p: usize| #[trigger] m0.contains_key(p) ==> skipped_at(m0[p], left_of(m, p), k)
}

proof fn lemma_progress_start(m0: Map<usize, Seq<EntryView>>, k: KeyView)
    ensures
        queue_progress(m0, m0, k),
{
    assert forall|p: usize| #[trigger] m0.contains_key(p) implies skipped_at(m0[p], left_of(m0, p), k) by {
        assert(m0[p].skip(0) =~= m0[p]);
    }
}

/// Moving one waiting source, whose first entry is at key `k`, past that
/// entry keeps the progress.
proof fn lemma_progress_step(
    m0: Map<usize, Seq<EntryView>>,
    m: Map<usize, Seq<EntryView>>,
    m2: Map<usize, Seq<EntryView>>,
    t: usize,
    k: KeyView,
)
    requires
        queue_progress(m0, m, k),
        m.contains_key(t),
        m[t].len() > 0,
        m[t][0].0 == k,
        m2 == (if m[t].drop_first().len() > 0 {
            m.remove(t).insert(t, m[t].drop_first())
        } else {
            m.remove(t)
        }),
    ensures
        queue_progress(m0, m2, k),
{
    assert forall|p: usize| #[trigger] m0.contains_key(p) implies skipped_at(m0[p], left_of(m2, p), k) by {
        if p == t {
            let s = m0[p];
            let n = choose|n: int| 0 <= n <= s.len() && left_of(m, p) == s.skip(n) && forall|j: int|
                0 <= j < n ==> (#[trigger] s[j]).0 == k;
            assert(s[n] == m[t][0]);
            assert(left_of(m2, p) =~= s.skip(n + 1));
            assert forall|j: int| 0 <= j < n + 1 implies (#[trigger] s[j]).0 == k by {}
        } else {
            assert(left_of(m2, p) == left_of(m, p));
        }
    }
}

/// What one move of a merge does to its sources, from how far the waiting
/// ones got: the current source is past its first entry, the others only
/// past leading entries at the current key, and none is new.
proof fn lemma_next_sources(
    big_m: Map<usize, Seq<EntryView>>,
    m0: Map<usize, Seq<EntryView>>,
    mf: Map<usize, Seq<EntryView>>,
    pos: usize,
    e0: Seq<EntryView>,
    k: KeyView,
    g: Map<usize, Seq<EntryView>>,
)
    requires
        big_m == m0.insert(pos, e0),
        !m0.contains_key(pos),
        !mf.contains_key(pos),
        queue_progress(m0, mf, k),
        g == (if e0.drop_first().len() > 0 {
            mf.insert(pos, e0.drop_first())
        } else {
            mf
        }),
    ensures
        forall|p: usize| #[trigger] g.contains_key(p) ==> big_m.contains_key(p),
        left_of(g, pos) == big_m[pos].drop_first(),
        forall|p: usize| #[trigger] big_m.contains_key(p) && p != pos ==> skipped_at(big_m[p], left_of(g, p), k),
{
    assert forall|p: usize| #[trigger] big_m.contains_key(p) && p != pos implies skipped_at(big_m[p], left_of(g, p), k) by {
        assert(m0.contains_key(p));
        assert(left_of(g, p) == left_of(mf, p));
    }
    if e0.drop_first().len() == 0 {
        assert(left_of(g, pos) =~= e0.drop_first());
    }
}

/// Whether the sources agree on every version: two entries with the same
/// user key and timestamp are the same key (same type and expiry).
pub open spec fn versions_consistent(m: Map<usize, Seq<EntryView>>) -> bool {
    forall|p1: usize, i: int, p2: usize, j: int|
        m.contains_key(p1) && m.contains_key(p2) && 0 <= i < m[p1].len() && 0 <= j < m[p2].len() && key_same(
            #[trigger] m[p1][i].0,
            #[trigger] m[p2][j].0,
        ) ==> m[p1][i].0 == m[p2][j].0
}

/// Once the first waiting source no longer starts at `k`, with sources in
/// key order that agree on versions, none starts at `k`.
proof fn lemma_heads_past_key<I: StorageIterator>(
    q: Seq<HeapWrapper<I>>,
    m0: Map<usize, Seq<EntryView>>,
    big_m: Map<usize, Seq<EntryView>>,
    pos: usize,
    k: KeyView,
)
    requires
        distinct_positions(q),
        queue_ok(q),
        q.len() == 0 || head(q[0]) != k,
        forall|i: int| 0 <= i < q.len() ==> !key_greater(k, head(#[trigger] q[i])),
        queue_progress(m0, queue_sources(q), k),
        forall|p: usize| #[trigger] m0.contains_key(p) ==> big_m.contains_key(p) && big_m[p] == m0[p],
        versions_consistent(big_m),
        big_m.contains_key(pos),
        big_m[pos].len() > 0,
        big_m[pos][0].0 == k,
    ensures
        forall|p: usize| #[trigger] queue_sources(q).contains_key(p) ==> queue_sources(q)[p][0].0 != k,
{
    if q.len() > 0 {
        let h0 = head(q[0]);
        let p0 = q[0].0;
        lemma_qs_at(q, 0);
        assert(m0.contains_key(p0));
        let s = m0[p0];
        let n = choose|n: int| 0 <= n <= s.len() && left_of(queue_sources(q), p0) == s.skip(n) && forall|j: int|
            0 <= j < n ==> (#[trigger] s[j]).0 == k;
        assert(q[0].1.entries() == s.skip(n));
        assert(h0 == big_m[p0][n].0);
        lemma_key_order_total(k, h0, h0);
        if key_same(big_m[p0][n].0, big_m[pos][0].0) {
            assert(big_m[p0][n].0 == big_m[pos][0].0);
        }
        assert(key_less(k, h0));
        assert forall|p: usize| #[trigger] queue_sources(q).contains_key(p) implies queue_sources(q)[p][0].0 != k by {
            let i = choose|i: int| 0 <= i < q.len() && (#[trigger] q[i]).0 == p;
            lemma_qs_at(q, i);
            if i > 0 {
                assert(wrapper_before(q[0], q[i]));
                lemma_key_order_total(k, h0, head(q[i]));
                lemma_key_order_total(h0, head(q[i]), k);
                lemma_key_order_total(k, k, k);
            } else {
                lemma_key_order_total(k, k, k);
            }
        }
    }
}

/// What a merge shows from outside: its sources, whether it is at an entry,
/// the current position and the current key.
pub type MergeState = (Map<usize, Seq<EntryView>>, bool, usize, KeyView);

/// Whether every source gives its entries in key order.
pub open spec fn sorted_map(m: Map<usize, Seq<EntryView>>) -> bool {
    forall|p: usize| #[trigger] m.contains_key(p) ==> sorted_entries(m[p])
}

/// Whether entries come in strictly increasing key order.
pub open spec fn strictly_sorted(s: Seq<EntryView>) -> bool {
    forall|i: int, j: int| 0 <= i < j < s.len() ==> key_less(#[trigger] s[i].0, #[trigger] s[j].0)
}

/// Whether every source gives its entries in strictly increasing key order.
pub open spec fn strict_map(m: Map<usize, Seq<EntryView>>) -> bool {
    forall|p: usize| #[trigger] m.contains_key(p) ==> strictly_sorted(m[p])
}

/// One move of a merge from state `a` to state `b`: no source is new, the
/// current source is past its first entry, every other source only past
/// leading entries equal to the current key, and, for sources in key order
/// that agree on versions, none of those starts at the current key any more.
pub open spec fn merge_moved(a: MergeState, b: MergeState) -> bool {
    &&& forall|p: usize| #[trigger] b.0.contains_key(p) ==> a.0.contains_key(p)
    &&& left_of(b.0, a.2) == a.0[a.2].drop_first()
    &&& forall|p: usize| #[trigger] a.0.contains_key(p) && p != a.2 ==> skipped_at(a.0[p], left_of(b.0, p), a.3)
    &&& sorted_map(a.0) && versions_consistent(a.0) ==> forall|p: usize|
        #[trigger] b.0.contains_key(p) && p != a.2 ==> b.0[p][0].0 != a.3
}

/// Whether state `j` of a run is at an entry and the next state is got from
/// it by a move.
pub open spec fn moved_at(t: Seq<MergeState>, j: int) -> bool {
    t[j].1 && merge_moved(t[j], t[j + 1])
}

/// Whether the sources of `m` are what is left of those of `m0`.
pub open spec fn suffix_map(m0: Map<usize, Seq<EntryView>>, m: Map<usize, Seq<EntryView>>) -> bool {
    forall|p: usize|
        #[trigger] m.contains_key(p) ==> m0.contains_key(p) && exists|n: int|
            0 <= n <= m0[p].len() && m[p] == m0[p].skip(n)
}

/// Whether the entry at index `e` of `s` is still to come in `cur`, what
/// is left of `s`.
pub open spec fn still_pending(s: Seq<EntryView>, cur: Seq<EntryView>, e: int) -> bool {
    exists|m: int| 0 <= m <= e && cur == s.skip(m)
}

/// What is left of sources in strict order that agree on versions is again
/// so.
proof fn lemma_suffix_keeps_order(m0: Map<usize, Seq<EntryView>>, m: Map<usize, Seq<EntryView>>)
    requires
        suffix_map(m0, m),
        strict_map(m0),
        versions_consistent(m0),
    ensures
        strict_map(m),
        sorted_map(m),
        versions_consistent(m),
{
    assert forall|p: usize| #[trigger] m.contains_key(p) implies strictly_sorted(m[p]) && sorted_entries(m[p]) by {
        let n = choose|n: int| 0 <= n <= m0[p].len() && m[p] == m0[p].skip(n);
        assert forall|i: int, j: int| 0 <= i < j < m[p].len() implies key_less(#[trigger] m[p][i].0, #[trigger] m[p][j].0) by {
            assert(m[p][i] == m0[p][i + n]);
            assert(m[p][j] == m0[p][j + n]);
        }
        assert forall|i: int, j: int| 0 <= i < j < m[p].len() implies !key_greater(#[trigger] m[p][i].0, #[trigger] m[p][j].0) by {
            assert(key_less(m[p][i].0, m[p][j].0));
            lemma_key_order_total(m[p][i].0, m[p][j].0, m[p][j].0);
        }
    }
    assert forall|p1: usize, i: int, p2: usize, j: int|
        m.contains_key(p1) && m.contains_key(p2) && 0 <= i < m[p1].len() && 0 <= j < m[p2].len() && key_same(
            #[trigger] m[p1][i].0,
            #[trigger] m[p2][j].0,
        ) implies m[p1][i].0 == m[p2][j].0 by {
        let n1 = choose|n: int| 0 <= n <= m0[p1].len() && m[p1] == m0[p1].skip(n);
        let n2 = choose|n: int| 0 <= n <= m0[p2].len() && m[p2] == m0[p2].skip(n);
        assert(m[p1][i] == m0[p1][i + n1]);
        assert(m[p2][j] == m0[p2][j + n2]);
    }
}

/// One move keeps the sources what is left of the first ones, and moves the
/// current key strictly forward when the sources are in strict order and
/// agree on versions.
proof fn lemma_merge_step(m0: Map<usize, Seq<EntryView>>, a: MergeState, b: MergeState)
    requires
        suffix_map(m0, a.0),
        strict_map(m0),
        versions_consistent(m0),
        heads_ordered(a.0, a.1, a.2, a.3),
        heads_ordered(b.0, b.1, b.2, b.3),
        a.1,
        merge_moved(a, b),
    ensures
        suffix_map(m0, b.0),
        b.1 ==> key_less(a.3, b.3),
{
    lemma_suffix_keeps_order(m0, a.0);
    assert forall|p: usize| #[trigger] b.0.contains_key(p) implies m0.contains_key(p) && exists|n: int|
        0 <= n <= m0[p].len() && b.0[p] == m0[p].skip(n) by {
        assert(a.0.contains_key(p));
        let n = choose|n: int| 0 <= n <= m0[p].len() && a.0[p] == m0[p].skip(n);
        assert(left_of(b.0, p) == b.0[p]);
        if p == a.2 {
            assert(b.0[p] =~= m0[p].skip(n + 1));
        } else {
            let k = choose|k: int| 0 <= k <= a.0[p].len() && left_of(b.0, p) == a.0[p].skip(k) && forall|j: int|
                0 <= j < k ==> (#[trigger] a.0[p][j]).0 == a.3;
            assert(b.0[p] =~= m0[p].skip(n + k));
        }
    }
    if b.1 {
        let p1 = b.2;
        assert(b.0.contains_key(p1));
        assert(a.0.contains_key(p1));
        assert(left_of(b.0, p1) == b.0[p1]);
        assert(a.0.contains_key(a.2));
        if p1 == a.2 {
            assert(b.3 == a.0[p1][1].0);
            assert(key_less(a.0[p1][0].0, a.0[p1][1].0));
        } else {
            let k = choose|k: int| 0 <= k <= a.0[p1].len() && left_of(b.0, p1) == a.0[p1].skip(k) && forall|j: int|
                0 <= j < k ==> (#[trigger] a.0[p1][j]).0 == a.3;
            assert(b.3 == a.0[p1][k].0);
            assert(b.0[p1][0].0 != a.3);
            let h = a.0[p1][0].0;
            assert(comes_before(a.2, a.3, p1, h));
            lemma_before_total(a.2, a.3, p1, h, p1, h);
            if k > 0 {
                assert(key_less(a.0[p1][0].0, a.0[p1][k].0));
            }
            lemma_key_order_total(a.3, h, b.3);
            lemma_key_order_total(a.3, b.3, b.3);
            if key_same(a.0[a.2][0].0, a.0[p1][k].0) {
                assert(a.0[a.2][0].0 == a.0[p1][k].0);
            }
        }
    }
}

/// Over a run of moves, each entry of the first sources is either given
/// out (the current key of some state at a position no later than its
/// source's) or still to come.
proof fn lemma_merge_pending(m0: Map<usize, Seq<EntryView>>, a: MergeState, b: MergeState, p: usize, e: int)
    requires
        heads_ordered(a.0, a.1, a.2, a.3),
        a.1,
        merge_moved(a, b),
        m0.contains_key(p),
        0 <= e < m0[p].len(),
        still_pending(m0[p], left_of(a.0, p), e),
    ensures
        (a.3 == m0[p][e].0 && a.2 <= p) || still_pending(m0[p], left_of(b.0, p), e),
{
    let s = m0[p];
    let m = choose|m: int| 0 <= m <= e && left_of(a.0, p) == s.skip(m);
    assert(a.0.contains_key(p)) by {
        if !a.0.contains_key(p) {
            assert(s.skip(m).len() > 0);
        }
    }
    let cur = a.0[p];
    if p == a.2 {
        if e == m {
            assert(cur[0] == s[e]);
        } else {
            assert(left_of(b.0, p) =~= s.skip(m + 1));
        }
    } else {
        let k = choose|k: int| 0 <= k <= cur.len() && left_of(b.0, p) == cur.skip(k) && forall|j: int|
            0 <= j < k ==> (#[trigger] cur[j]).0 == a.3;
        if e < m + k {
            assert(cur[e - m] == s[e]);
            assert(cur[0].0 == a.3);
            assert(comes_before(a.2, a.3, p, cur[0].0));
            lemma_key_order_total(a.3, a.3, a.3);
        } else {
            assert(left_of(b.0, p) =~= s.skip(m + k));
        }
    }
}

/// The whole output of a merge: over a run of states, each got from the one
/// before by a move, starting from sources in strictly increasing key order
/// that agree on versions, the current keys strictly increase (so each key
/// is given out once), the current entry of every state is an entry of its
/// first source, and every entry of the first sources is given out, as the
/// current key of a state whose current source is its own or an earlier one
/// (the newest source holding it), unless it is still to come at the end.
pub proof fn lemma_merge_output(t: Seq<MergeState>)
    requires
        t.len() > 0,
        forall|i: int| 0 <= i < t.len() ==> heads_ordered(t[i].0, t[i].1, t[i].2, t[i].3),
        forall|i: int| 0 <= i < t.len() - 1 ==> #[trigger] moved_at(t, i),
        strict_map(t[0].0),
        versions_consistent(t[0].0),
    ensures
        forall|i: int, j: int| 0 <= i < j < t.len() && t[j].1 ==> key_less(#[trigger] t[i].3, #[trigger] t[j].3),
        forall|i: int|
            0 <= i < t.len() && #[trigger] t[i].1 ==> exists|n: int|
                0 <= n < t[0].0[t[i].2].len() && t[0].0.contains_key(t[i].2) && t[i].0[t[i].2] == t[0].0[t[i].2].skip(n),
        forall|p: usize, e: int|
            t[0].0.contains_key(p) && 0 <= e < t[0].0[p].len() ==> (exists|i: int|
                0 <= i < t.len() - 1 && t[i].3 == (#[trigger] t[0].0[p][e]).0 && t[i].2 <= p) || still_pending(
                t[0].0[p],
                left_of(t[t.len() - 1].0, p),
                e,
            ),
    decreases t.len(),
{
    let m0 = t[0].0;
    if t.len() == 1 {
        assert forall|p: usize| #[trigger] m0.contains_key(p) implies exists|n: int|
            0 <= n <= m0[p].len() && m0[p] == m0[p].skip(n) by {
            assert(m0[p] =~= m0[p].skip(0));
        }
        assert forall|p: usize, e: int| m0.contains_key(p) && 0 <= e < m0[p].len() implies #[trigger] still_pending(
            m0[p],
            left_of(t[0].0, p),
            e,
        ) by {
            assert(m0[p] =~= m0[p].skip(0));
        }
        if t[0].1 {
            assert(m0.contains_key(t[0].2));
            assert(m0[t[0].2] =~= m0[t[0].2].skip(0));
        }
    } else {
        let u = t.drop_last();
        let l = t.len() - 1;
        assert forall|i: int| 0 <= i < u.len() - 1 implies #[trigger] moved_at(u, i) by {
            assert(moved_at(t, i));
            assert(u[i] == t[i]);
            assert(u[i + 1] == t[i + 1]);
        }
        lemma_merge_output(u);
        assert(moved_at(t, l - 1));
        lemma_merge_suffix(t, l - 1);
        lemma_merge_step(m0, t[l - 1], t[l]);
        assert forall|i: int, j: int| 0 <= i < j < t.len() && t[j].1 implies key_less(#[trigger] t[i].3, #[trigger] t[j].3) by {
            if j < l {
                assert(u[i] == t[i] && u[j] == t[j]);
            } else if i < l - 1 {
                assert(u[i] == t[i] && u[l - 1] == t[l - 1]);
                assert(key_less(t[i].3, t[l - 1].3));
                lemma_key_order_total(t[i].3, t[l - 1].3, t[l].3);
            }
        }
        assert forall|i: int| 0 <= i < t.len() && #[trigger] t[i].1 implies exists|n: int|
            0 <= n < t[0].0[t[i].2].len() && t[0].0.contains_key(t[i].2) && t[i].0[t[i].2] == t[0].0[t[i].2].skip(n) by {
            if i < l {
                assert(u[i] == t[i]);
            } else {
                assert(t[l].0.contains_key(t[l].2));
                let n = choose|n: int| 0 <= n <= m0[t[l].2].len() && t[l].0[t[l].2] == m0[t[l].2].skip(n);
                assert(t[l].0[t[l].2].len() > 0);
            }
        }
        assert forall|p: usize, e: int| m0.contains_key(p) && 0 <= e < m0[p].len() implies (exists|i: int|
            0 <= i < t.len() - 1 && t[i].3 == (#[trigger] m0[p][e]).0 && t[i].2 <= p) || still_pending(
            m0[p],
            left_of(t[t.len() - 1].0, p),
            e,
        ) by {
            assert(u[0] == t[0]);
            if exists|i: int| 0 <= i < u.len() - 1 && u[i].3 == m0[p][e].0 && u[i].2 <= p {
                let i = choose|i: int| 0 <= i < u.len() - 1 && u[i].3 == m0[p][e].0 && u[i].2 <= p;
                assert(u[i] == t[i]);
            } else {
                assert(u[u.len() - 1] == t[l - 1]);
                lemma_merge_pending(m0, t[l - 1], t[l], p, e);
            }
        }
    }
}

/// Along a run of moves from sources in strict order that agree on
/// versions, each state's sources are what is left of the first ones.
proof fn lemma_merge_suffix(t: Seq<MergeState>, i: int)
    requires
        0 <= i < t.len(),
        forall|j: int| 0 <= j < t.len() ==> heads_ordered(t[j].0, t[j].1, t[j].2, t[j].3),
        forall|j: int| 0 <= j < t.len() - 1 ==> #[trigger] moved_at(t, j),
        strict_map(t[0].0),
        versions_consistent(t[0].0),
    ensures
        suffix_map(t[0].0, t[i].0),
    decreases i,
{
    let m0 = t[0].0;
    if i == 0 {
        assert forall|p: usize| #[trigger] m0.contains_key(p) implies m0.contains_key(p) && exists|n: int|
            0 <= n <= m0[p].len() && m0[p] == m0[p].skip(n) by {
            assert(m0[p] =~= m0[p].skip(0));
        }
    } else {
        lemma_merge_suffix(t, i - 1);
        assert(moved_at(t, i - 1));
        lemma_merge_step(m0, t[i - 1], t[i]);
    }
}

proof fn lemma_qs_at<I: StorageIterator>(q: Seq<HeapWrapper<I>>, i: int)
    requires
        distinct_positions(q),
        0 <= i < q.len(),
    ensures
        queue_sources(q).contains_key(q[i].0),
        queue_sources(q)[q[i].0] == q[i].1.entries(),
{
    let p = q[i].0;
    assert(exists|j: int| 0 <= j < q.len() && (#[trigger] q[j]).0 == p);
    let j = choose|j: int| 0 <= j < q.len() && (#[trigger] q[j]).0 == p;
    if j != i {
        if j < i {
            assert(q[j].0 != q[i].0);
        } else {
            assert(q[i].0 != q[j].0);
        }
    }
}

proof fn lemma_qs_remove_first<I: StorageIterator>(q: Seq<HeapWrapper<I>>)
    requires
        distinct_positions(q),
        q.len() > 0,
    ensures
        distinct_positions(q.remove(0)),
        queue_sources(q.remove(0)) == queue_sources(q).remove(q[0].0),
{
    let t = q.remove(0);
    assert forall|a: int, b: int| 0 <= a < b < t.len() implies (#[trigger] t[a]).0 != (#[trigger] t[b]).0 by {
        assert(t[a] == q[a + 1]);
        assert(t[b] == q[b + 1]);
    }
    let m = queue_sources(t);
    let n = queue_sources(q).remove(q[0].0);
    assert forall|p: usize| #[trigger] m.contains_key(p) <==> n.contains_key(p) by {
        if m.contains_key(p) {
            let j = choose|j: int| 0 <= j < t.len() && (#[trigger] t[j]).0 == p;
            assert(t[j] == q[j + 1]);
            assert(q[0].0 != q[j + 1].0);
        }
        if n.contains_key(p) {
            let j = choose|j: int| 0 <= j < q.len() && (#[trigger] q[j]).0 == p;
            assert(j != 0);
            assert(t[j - 1] == q[j]);
        }
    }
    assert forall|p: usize| #[trigger] m.contains_key(p) implies m[p] == n[p] by {
        let j = choose|j: int| 0 <= j < t.len() && (#[trigger] t[j]).0 == p;
        assert(t[j] == q[j + 1]);
        lemma_qs_at(t, j);
        lemma_qs_at(q, j + 1);
    }
    assert(m =~= n);
}

proof fn lemma_qs_insert<I: StorageIterator>(q: Seq<HeapWrapper<I>>, k: int, w: HeapWrapper<I>)
    requires
        distinct_positions(q),
        0 <= k <= q.len(),
        forall|i: int| 0 <= i < q.len() ==> (#[trigger] q[i]).0 != w.0,
    ensures
        distinct_positions(q.insert(k, w)),
        queue_sources(q.insert(k, w)) == queue_sources(q).insert(w.0, w.1.entries()),
{
    let t = q.insert(k, w);
    assert forall|a: int, b: int| 0 <= a < b < t.len() implies (#[trigger] t[a]).0 != (#[trigger] t[b]).0 by {
        let a0 = if a < k { a } else { a - 1 };
        let b0 = if b < k { b } else { b - 1 };
        if a != k && b != k {
            assert(t[a] == q[a0]);
            assert(t[b] == q[b0]);
        } else if a == k {
            assert(t[b] == q[b0]);
        } else {
            assert(t[a] == q[a0]);
        }
    }
    let m = queue_sources(t);
    let n = queue_sources(q).insert(w.0, w.1.entries());
    assert forall|p: usize| #[trigger] m.contains_key(p) <==> n.contains_key(p) by {
        if m.contains_key(p) && p != w.0 {
            let j = choose|j: int| 0 <= j < t.len() && (#[trigger] t[j]).0 == p;
            if j < k {
                assert(t[j] == q[j]);
            } else if j > k {
                assert(t[j] == q[j - 1]);
            }
        }
        if n.contains_key(p) {
            if p == w.0 {
                assert(t[k] == w);
            } else {
                let j = choose|j: int| 0 <= j < q.len() && (#[trigger] q[j]).0 == p;
                if j < k {
                    assert(t[j] == q[j]);
                } else {
                    assert(t[j + 1] == q[j]);
                }
            }
        }
    }
    assert forall|p: usize| #[trigger] m.contains_key(p) implies m[p] == n[p] by {
        let j = choose|j: int| 0 <= j < t.len() && (#[trigger] t[j]).0 == p;
        lemma_qs_at(t, j);
        if j < k {
            assert(t[j] == q[j]);
            lemma_qs_at(q, j);
        } else if j > k {
            assert(t[j] == q[j - 1]);
            lemma_qs_at(q, j - 1);
        }
    }
    assert(m =~= n);
}

/// Merges iterators: gives the smallest current key among them, and of
/// equal keys the one of the iterator that came first; entries with a key
/// already given are skipped.
pub struct MergeIterator<I: StorageIterator> {
    iters: Vec<HeapWrapper<I>>,
    current: Option<HeapWrapper<I>>,
}

/// Whether `a` and `b` order as the merge needs: one before the other, or
/// the same position.
proof fn lemma_before_total(ai: usize, a: KeyView, bi: usize, b: KeyView, ci: usize, c: KeyView)
    ensures
        ai != bi ==> (comes_before(ai, a, bi, b) || comes_before(bi, b, ai, a)),
        !(comes_before(ai, a, bi, b) && comes_before(bi, b, ai, a)),
        comes_before(ai, a, bi, b) && comes_before(bi, b, ci, c) ==> comes_before(ai, a, ci, c),
        comes_before(ai, a, bi, b) ==> !key_greater(a, b),
{
    lemma_key_order_total(a, b, c);
    lemma_key_order_total(b, a, c);
    lemma_key_order_total(a, c, b);
    lemma_key_order_total(b, c, a);
    lemma_key_order_total(c, a, b);
}

impl<I: StorageIterator> MergeIterator<I> {
    /// The iterators waiting, in the order they come out.
    pub closed spec fn queue(&self) -> Seq<HeapWrapper<I>> {
        self.iters@
    }

    /// The iterator whose entry is current.
    pub closed spec fn current_iter(&self) -> Option<HeapWrapper<I>> {
        self.current
    }

    /// The waiting iterators are in order and each has an entry; the current
    /// one comes before all of them; when the current one is done, none are
    /// waiting; positions are distinct.
    pub closed spec fn wf(&self) -> bool {
        &&& queue_ok(self.iters@)
        &&& positions_distinct(self.iters@, self.current)
        &&& match self.current {
            Some(c) => {
                &&& c.1.entries().len() == 0 ==> self.iters@.len() == 0
                &&& c.1.entries().len() > 0 ==> forall|i: int|
                    0 <= i < self.iters@.len() ==> wrapper_before(c, #[trigger] self.iters@[i])
            },
            None => self.iters@.len() == 0,
        }
    }

    /// The merged iterator is at an entry.
    pub closed spec fn valid(&self) -> bool {
        self.current matches Some(c) && c.1.entries().len() > 0
    }

    /// The current key.
    pub closed spec fn current_key(&self) -> KeyView {
        head(self.current->0)
    }

    /// The position of the current source.
    pub closed spec fn current_pos(&self) -> usize {
        (self.current->0).0
    }

    /// The sources that still hold entries, by position, with those entries.
    pub closed spec fn sources(&self) -> Map<usize, Seq<EntryView>> {
        all_sources(self.iters@, self.current)
    }

    /// The merge as seen from outside: its sources, whether it is at an
    /// entry, the current position and the current key.
    pub open spec fn merge_state(&self) -> MergeState {
        (self.sources(), self.valid(), self.current_pos(), self.current_key())
    }

    /// Sources seen in key order are in key order.
    proof fn lemma_sorted_view(&self)
        requires
            self.wf(),
            sorted_map(self.sources()),
        ensures
            self.sources_sorted(),
    {
        let q = self.iters@;
        assert forall|i: int| 0 <= i < q.len() implies sorted_entries((#[trigger] q[i]).1.entries()) by {
            lemma_qs_at(q, i);
            if let Some(c) = self.current {
                if c.1.entries().len() > 0 {
                    assert(q[i].0 != c.0);
                }
            }
            assert(self.sources().contains_key(q[i].0));
        }
        if let Some(c) = self.current {
            if c.1.entries().len() > 0 {
                assert(self.sources().contains_key(c.0));
            }
        }
    }

    /// What a well-formed merge shows of its sources.
    proof fn lemma_wf_heads(&self)
        requires
            self.wf(),
        ensures
            heads_ordered(self.sources(), self.valid(), self.current_pos(), self.current_key()),
    {
        let q = self.iters@;
        let src = self.sources();
        assert forall|p: usize| #[trigger] queue_sources(q).contains_key(p) implies exists|i: int|
            0 <= i < q.len() && q[i].0 == p && queue_sources(q)[p] == q[i].1.entries() by {
            let i = choose|i: int| 0 <= i < q.len() && (#[trigger] q[i]).0 == p;
            lemma_qs_at(q, i);
        }
        assert forall|p: usize| #[trigger] src.contains_key(p) implies src[p].len() > 0 by {
            if !(self.current matches Some(c) && c.1.entries().len() > 0 && p == c.0) {
                assert(queue_sources(q).contains_key(p));
            }
        }
        if self.valid() {
            let c = self.current->0;
            assert(src.contains_key(c.0));
            assert forall|p: usize| #[trigger] src.contains_key(p) && p != self.current_pos() implies comes_before(
                self.current_pos(),
                self.current_key(),
                p,
                src[p][0].0,
            ) by {
                assert(queue_sources(q).contains_key(p));
                let i = choose|i: int| 0 <= i < q.len() && q[i].0 == p && queue_sources(q)[p] == q[i].1.entries();
                assert(wrapper_before(c, q[i]));
            }
        } else {
            assert(q.len() == 0);
            assert forall|p: usize| !(#[trigger] src.contains_key(p)) by {}
        }
    }

    /// Whether `w` comes before `x` in the merge order.
    fn before(w: &HeapWrapper<I>, x: &HeapWrapper<I>) -> (r: bool)
        requires
            w.1.entries().len() > 0,
            x.1.entries().len() > 0,
        ensures
            r == wrapper_before(*w, *x),
    {
        let a = w.1.key();
        let b = x.1.key();
        key_lt(&a, &b) || (key_ties(&a, &b) && w.0 < x.0)
    }

    /// Puts an iterator that has an entry into its place among the waiting
    /// ones.
    fn enqueue(q: &mut Vec<HeapWrapper<I>>, w: HeapWrapper<I>)
        requires
            queue_ok(old(q)@),
            w.1.entries().len() > 0,
            forall|i: int| 0 <= i < old(q)@.len() ==> (#[trigger] old(q)@[i]).0 != w.0,
        ensures
            queue_ok(final(q)@),
            final(q)@.len() == old(q)@.len() + 1,
            exists|k: int|
                0 <= k <= old(q)@.len() && final(q)@ == old(q)@.insert(k, w),
    {
        let ghost s = q@;
        let mut j: usize = 0;
        while j < q.len() && !Self::before(&w, &q[j])
            invariant
                0 <= j <= q@.len(),
                q@ == s,
                queue_ok(s),
                w.1.entries().len() > 0,
                forall|i: int| 0 <= i < s.len() ==> (#[trigger] s[i]).0 != w.0,
                forall|i: int| 0 <= i < j ==> wrapper_before(#[trigger] s[i], w),
            decreases q@.len() - j,
        {
            proof {
                lemma_before_total(s[j as int].0, head(s[j as int]), w.0, head(w), w.0, head(w));
            }
            j = j + 1;
        }
        q.insert(j, w);
        proof {
            let t = q@;
            assert(t == s.insert(j as int, w));
            assert forall|a: int, b: int| 0 <= a < b < t.len() implies wrapper_before(#[trigger] t[a], #[trigger] t[b]) by {
                if b < j {
                } else if a < j && b == j {
                } else if a < j && b > j {
                    assert(t[b] == s[b - 1]);
                } else if a == j && b > j {
                    assert(t[b] == s[b - 1]);
                    if b - 1 > j {
                        assert(wrapper_before(s[j as int], s[b - 1]));
                        lemma_before_total(w.0, head(w), s[j as int].0, head(s[j as int]), s[b - 1].0, head(s[b - 1]));
                    }
                } else {
                    assert(t[a] == s[a - 1]);
                    assert(t[b] == s[b - 1]);
                }
            }
            assert forall|i: int| 0 <= i < t.len() implies (#[trigger] t[i]).1.entries().len() > 0 by {
                if i < j {
                } else if i > j {
                    assert(t[i] == s[i - 1]);
                }
            }
        }
    }
}

/// Whether no waiting iterator can fail to move on.
pub open spec fn all_infallible<I: StorageIterator>(q: Seq<HeapWrapper<I>>) -> bool {
    forall|i: int| 0 <= i < q.len() ==> (#[trigger] q[i]).1.infallible()
}

proof fn lemma_infallible_insert<I: StorageIterator>(q: Seq<HeapWrapper<I>>, k: int, w: HeapWrapper<I>)
    requires
        0 <= k <= q.len(),
        all_infallible(q),
        w.1.infallible(),
    ensures
        all_infallible(q.insert(k, w)),
{
    let t = q.insert(k, w);
    assert forall|i: int| 0 <= i < t.len() implies (#[trigger] t[i]).1.infallible() by {
        if i < k {
            assert(t[i] == q[i]);
        } else if i > k {
            assert(t[i] == q[i - 1]);
        }
    }
}

proof fn lemma_infallible_remove_first<I: StorageIterator>(q: Seq<HeapWrapper<I>>)
    requires
        q.len() > 0,
        all_infallible(q),
    ensures
        all_infallible(q.remove(0)),
        q[0].1.infallible(),
{
    let t = q.remove(0);
    assert forall|i: int| 0 <= i < t.len() implies (#[trigger] t[i]).1.infallible() by {
        assert(t[i] == q[i + 1]);
    }
}

/// Whether every waiting iterator gives its entries in key order.
pub open spec fn all_sorted<I: StorageIterator>(q: Seq<HeapWrapper<I>>) -> bool {
    forall|i: int| 0 <= i < q.len() ==> sorted_entries((#[trigger] q[i]).1.entries())
}

/// The entries the waiting iterators still hold, all together.
pub open spec fn total_len<I: StorageIterator>(q: Seq<HeapWrapper<I>>) -> nat
    decreases q.len(),
{
    if q.len() == 0 {
        0
    } else {
        total_len(q.drop_last()) + q.last().1.entries().len()
    }
}

/// The running underlying iterators of the waiting sources, all together.
pub open spec fn active_total<I: StorageIterator>(q: Seq<HeapWrapper<I>>) -> nat
    decreases q.len(),
{
    if q.len() == 0 {
        0
    } else {
        active_total(q.drop_last()) + q.last().1.active_count()
    }
}

proof fn lemma_active_total_prefix<I: StorageIterator>(q: Seq<HeapWrapper<I>>, k: int)
    requires
        0 <= k <= q.len(),
    ensures
        active_total(q.take(k)) <= active_total(q),
    decreases q.len() - k,
{
    if k < q.len() {
        lemma_active_total_prefix(q, k + 1);
        assert(q.take(k + 1).drop_last() =~= q.take(k));
    } else {
        assert(q.take(k) =~= q);
    }
}

proof fn lemma_total_insert<I: StorageIterator>(q: Seq<HeapWrapper<I>>, k: int, w: HeapWrapper<I>)
    requires
        0 <= k <= q.len(),
    ensures
        total_len(q.insert(k, w)) == total_len(q) + w.1.entries().len(),
    decreases q.len(),
{
    if k == q.len() {
        assert(q.insert(k, w) =~= q.push(w));
        assert(q.push(w).drop_last() =~= q);
    } else {
        let t = q.insert(k, w);
        assert(t.drop_last() =~= q.drop_last().insert(k, w));
        assert(t.last() == q.last());
        lemma_total_insert(q.drop_last(), k, w);
    }
}

proof fn lemma_total_remove_first<I: StorageIterator>(q: Seq<HeapWrapper<I>>)
    requires
        q.len() > 0,
    ensures
        total_len(q) == q[0].1.entries().len() + total_len(q.remove(0)),
    decreases q.len(),
{
    if q.len() == 1 {
        assert(q.remove(0) =~= Seq::<HeapWrapper<I>>::empty());
        assert(q.drop_last() =~= Seq::<HeapWrapper<I>>::empty());
    } else {
        let r = q.remove(0);
        assert(r.drop_last() =~= q.drop_last().remove(0));
        assert(r.last() == q.last());
        lemma_total_remove_first(q.drop_last());
    }
}

proof fn lemma_sorted_drop_first(s: Seq<EntryView>)
    requires
        sorted_entries(s),
        s.len() > 0,
    ensures
        sorted_entries(s.drop_first()),
        s.len() > 1 ==> !key_greater(s[0].0, s.drop_first()[0].0),
{
    let t = s.drop_first();
    assert forall|i: int, j: int| 0 <= i < j < t.len() implies !key_greater(#[trigger] t[i].0, #[trigger] t[j].0) by {
        assert(t[i] == s[i + 1]);
        assert(t[j] == s[j + 1]);
    }
    if s.len() > 1 {
        assert(t[0] == s[1]);
    }
}

impl<I: StorageIterator> MergeIterator<I> {
    /// Every source gives its entries in key order.
    pub closed spec fn sources_sorted(&self) -> bool {
        &&& all_sorted(self.iters@)
        &&& self.current matches Some(c) ==> sorted_entries(c.1.entries())
    }

    /// No source can fail to move on.
    pub closed spec fn sources_infallible(&self) -> bool {
        &&& all_infallible(self.iters@)
        &&& self.current matches Some(c) ==> c.1.infallible()
    }

    /// Merges the iterators; an earlier one is a newer source. With no
    /// iterator there is nothing to give; when none has an entry the last
    /// one is kept (at position zero) and nothing is given; otherwise the
    /// iterators with entries are ordered and the first becomes current.
    pub fn create(iters: Vec<Box<I>>) -> (r: Self)
        ensures
            r.wf(),
            iters@.len() == 0 ==> r.current_iter() is None,
            r.valid() == exists|i: int| 0 <= i < iters@.len() && (#[trigger] iters@[i]).entries().len() > 0,
            (forall|i: int| 0 <= i < iters@.len() ==> sorted_entries((#[trigger] iters@[i]).entries()))
                ==> r.sources_sorted(),
            (forall|i: int| 0 <= i < iters@.len() ==> (#[trigger] iters@[i]).infallible())
                ==> r.sources_infallible(),
            r.sources() == Map::new(
                |p: usize| p < iters@.len() && iters@[p as int].entries().len() > 0,
                |p: usize| iters@[p as int].entries(),
            ),
            heads_ordered(r.sources(), r.valid(), r.current_pos(), r.current_key()),
            r.valid() ==> {
                let c = r.current_iter()->0;
                &&& c.0 < iters@.len() && c.1 == iters@[c.0 as int]
                &&& forall|i: int|
                    0 <= i < r.queue().len() ==> (#[trigger] r.queue()[i]).0 < iters@.len() && r.queue()[i].1
                        == iters@[r.queue()[i].0 as int]
                &&& forall|i: int|
                    0 <= i < iters@.len() && (#[trigger] iters@[i]).entries().len() > 0 ==> (c.0 == i
                        || exists|j: int| 0 <= j < r.queue().len() && r.queue()[j].0 == i)
            },
    {
        let ghost orig = iters@;
        if iters.len() == 0 {
            let r = MergeIterator { iters: Vec::new(), current: None };
            proof {
                r.lemma_wf_heads();
                assert(r.sources() =~= Map::new(
                    |p: usize| p < orig.len() && orig[p as int].entries().len() > 0,
                    |p: usize| orig[p as int].entries(),
                ));
            }
            return r;
        }
        let mut any_valid = false;
        let mut i: usize = 0;
        while i < iters.len()
            invariant
                0 <= i <= iters@.len(),
                any_valid == exists|j: int| 0 <= j < i && (#[trigger] iters@[j]).entries().len() > 0,
            decreases iters@.len() - i,
        {
            if iters[i].is_valid() {
                any_valid = true;
            }
            i = i + 1;
        }
        let mut iters = iters;
        if !any_valid {
            let last = iters.pop().unwrap();
            let r = MergeIterator { iters: Vec::new(), current: Some(HeapWrapper(0, last)) };
            proof {
                r.lemma_wf_heads();
                assert(r.sources() =~= Map::new(
                    |p: usize| p < orig.len() && orig[p as int].entries().len() > 0,
                    |p: usize| orig[p as int].entries(),
                ));
            }
            return r;
        }
        let mut heap: Vec<HeapWrapper<I>> = Vec::new();
        while iters.len() > 0
            invariant
                iters@ == orig.take(iters@.len() as int),
                iters@.len() <= orig.len(),
                queue_ok(heap@),
                forall|a: int, b: int| 0 <= a < b < heap@.len() ==> (#[trigger] heap@[a]).0 != (#[trigger] heap@[b]).0,
                forall|k: int|
                    0 <= k < heap@.len() ==> iters@.len() <= (#[trigger] heap@[k]).0 < orig.len() && heap@[k].1
                        == orig[heap@[k].0 as int],
                forall|j: int|
                    iters@.len() <= j < orig.len() && (#[trigger] orig[j]).entries().len() > 0 ==> exists|k: int|
                        0 <= k < heap@.len() && heap@[k].0 == j,
                (exists|j: int| 0 <= j < orig.len() && (#[trigger] orig[j]).entries().len() > 0),
            decreases iters@.len(),
        {
            let ghost before = heap@;
            let item = iters.pop().unwrap();
            let idx = iters.len();
            assert(item == orig[idx as int]);
            if item.is_valid() {
                Self::enqueue(&mut heap, HeapWrapper(idx, item));
                proof {
                    let k = choose|k: int| 0 <= k <= before.len() && heap@ == before.insert(k, HeapWrapper(idx, item));
                    assert forall|a: int, b: int| 0 <= a < b < heap@.len() implies (#[trigger] heap@[a]).0 != (
                    #[trigger] heap@[b]).0 by {
                        let a0 = if a < k { a } else { a - 1 };
                        let b0 = if b < k { b } else { b - 1 };
                        if a != k && b != k {
                            assert(heap@[a] == before[a0]);
                            assert(heap@[b] == before[b0]);
                        } else if a == k {
                            assert(heap@[b] == before[b - 1]);
                        } else {
                            assert(heap@[a] == before[a0]);
                        }
                    }
                    assert forall|m: int| 0 <= m < heap@.len() implies iters@.len() <= (#[trigger] heap@[m]).0
                        < orig.len() && heap@[m].1 == orig[heap@[m].0 as int] by {
                        if m < k {
                            assert(heap@[m] == before[m]);
                        } else if m > k {
                            assert(heap@[m] == before[m - 1]);
                        }
                    }
                    assert forall|j: int| iters@.len() <= j < orig.len() && (#[trigger] orig[j]).entries().len()
                        > 0 implies exists|m: int| 0 <= m < heap@.len() && heap@[m].0 == j by {
                        if j == idx {
                            assert(heap@[k].0 == j);
                        } else {
                            let m = choose|m: int| 0 <= m < before.len() && before[m].0 == j;
                            if m < k {
                                assert(heap@[m] == before[m]);
                            } else {
                                assert(heap@[m + 1] == before[m]);
                            }
                        }
                    }
                }
            } else {
                proof {
                    assert forall|j: int| iters@.len() <= j < orig.len() && (#[trigger] orig[j]).entries().len()
                        > 0 implies exists|m: int| 0 <= m < heap@.len() && heap@[m].0 == j by {
                        assert(j != idx);
                    }
                }
            }
            assert(iters@ =~= orig.take(iters@.len() as int));
        }
        proof {
            let j = choose|j: int| 0 <= j < orig.len() && (#[trigger] orig[j]).entries().len() > 0;
            let m = choose|m: int| 0 <= m < heap@.len() && heap@[m].0 == j;
        }
        let ghost h = heap@;
        let current = heap.remove(0);
        proof {
            assert(h[0] == current);
            assert(current.0 < orig.len() && current.1 == orig[current.0 as int]);
            assert forall|m: int| 0 <= m < heap@.len() implies wrapper_before(current, #[trigger] heap@[m]) by {
                assert(heap@[m] == h[m + 1]);
            }
            assert forall|a: int, b: int| 0 <= a < b < heap@.len() implies wrapper_before(#[trigger] heap@[a], #[trigger] heap@[b]) by {
                assert(heap@[a] == h[a + 1]);
                assert(heap@[b] == h[b + 1]);
            }
            assert forall|a: int, b: int| 0 <= a < b < heap@.len() implies (#[trigger] heap@[a]).0 != (#[trigger] heap@[b]).0 by {
                assert(heap@[a] == h[a + 1]);
                assert(heap@[b] == h[b + 1]);
            }
            assert forall|m: int| 0 <= m < heap@.len() implies (#[trigger] heap@[m]).0 != current.0 && heap@[m].1.entries().len() > 0 by {
                assert(heap@[m] == h[m + 1]);
            }
            assert forall|j: int|
                0 <= j < orig.len() && (#[trigger] orig[j]).entries().len() > 0 implies (current.0 == j
                    || exists|m: int| 0 <= m < heap@.len() && heap@[m].0 == j) by {
                let m = choose|m: int| 0 <= m < h.len() && h[m].0 == j;
                if m > 0 {
                    assert(heap@[m - 1] == h[m]);
                }
            }
            assert forall|m: int| 0 <= m < heap@.len() implies (#[trigger] heap@[m]).0 < orig.len() && heap@[m].1
                == orig[heap@[m].0 as int] by {
                assert(heap@[m] == h[m + 1]);
            }
        }
        let ghost hq = heap@;
        let r = MergeIterator { iters: heap, current: Some(current) };
        assert forall|i: int|
            0 <= i < orig.len() && (#[trigger] orig[i]).entries().len() > 0 && current.0 != i implies exists|j: int|
                0 <= j < r.queue().len() && r.queue()[j].0 == i by {
            let m = choose|m: int| 0 <= m < hq.len() && hq[m].0 == i;
            assert(r.queue()[m] == hq[m]);
        }
        proof {
            r.lemma_wf_heads();
            let target = Map::new(
                |p: usize| p < orig.len() && orig[p as int].entries().len() > 0,
                |p: usize| orig[p as int].entries(),
            );
            let src = r.sources();
            assert forall|p: usize| #[trigger] src.contains_key(p) <==> target.contains_key(p) by {
                if src.contains_key(p) && p != current.0 {
                    let j = choose|j: int| 0 <= j < hq.len() && (#[trigger] hq[j]).0 == p;
                    assert(hq[j].1.entries().len() > 0);
                }
                if target.contains_key(p) && p != current.0 {
                    let j = choose|j: int| 0 <= j < r.queue().len() && r.queue()[j].0 == p;
                    assert(hq[j].0 == p);
                }
            }
            assert forall|p: usize| #[trigger] src.contains_key(p) implies src[p] == target[p] by {
                if p != current.0 {
                    let j = choose|j: int| 0 <= j < hq.len() && (#[trigger] hq[j]).0 == p;
                    lemma_qs_at(hq, j);
                }
            }
            assert(src =~= target);
        }
        r
    }

    /// Whether the merge is at an entry.
    pub fn is_valid(&self) -> (r: bool)
        ensures
            r == self.valid(),
    {
        match &self.current {
            Some(c) => c.1.is_valid(),
            None => false,
        }
    }

    /// The current key: the smallest among the sources, of the newest source
    /// holding it.
    pub fn key(&self) -> (r: KeySlice<'_>)
        requires
            self.valid(),
        ensures
            r@ == self.current_key(),
            r@ == self.sources()[self.current_pos()][0].0,
    {
        match &self.current {
            Some(c) => c.1.key(),
            None => vstd::pervasive::unreached(),
        }
    }

    /// The current value.
    pub fn value(&self) -> (r: &[u8])
        requires
            self.valid(),
        ensures
            r@ == (self.current_iter()->0).1.entries()[0].1,
            r@ == self.sources()[self.current_pos()][0].1,
    {
        match &self.current {
            Some(c) => c.1.value(),
            None => vstd::pervasive::unreached(),
        }
    }

    /// How many underlying iterators are still running, over all sources.
    pub closed spec fn spec_active(&self) -> nat {
        active_total(self.iters@) + match self.current {
            Some(c) => c.1.active_count(),
            None => 0,
        }
    }

    /// How many underlying iterators are still running, over all sources.
    pub fn num_active_iterators(&self) -> (r: usize)
        requires
            self.spec_active() <= usize::MAX,
        ensures
            r == self.spec_active(),
    {
        let mut sum: usize = 0;
        let mut i: usize = 0;
        while i < self.iters.len()
            invariant
                0 <= i <= self.iters@.len(),
                sum == active_total(self.iters@.take(i as int)),
                self.spec_active() <= usize::MAX,
            decreases self.iters@.len() - i,
        {
            proof {
                assert(self.iters@.take(i + 1).drop_last() =~= self.iters@.take(i as int));
                lemma_active_total_prefix(self.iters@, i + 1);
            }
            let n = self.iters[i].1.num_active_iterators();
            sum = sum + n;
            i = i + 1;
        }
        assert(self.iters@.take(self.iters@.len() as int) =~= self.iters@);
        match &self.current {
            Some(c) => sum + c.1.num_active_iterators(),
            None => sum,
        }
    }

    /// Moves past the current key: every waiting source at the same entry
    /// moves on too, then the smallest remaining entry becomes current. A
    /// failure of a source is handed back. On success the current source is
    /// past its first entry, every other source at most past leading entries
    /// equal to the old current key, and the sources still come out in merge
    /// order.
    #[verifier::spinoff_prover]
    #[verifier::rlimit(40)]
    pub fn next(&mut self) -> (r: Result<(), LsmError>)
        requires
            old(self).wf(),
            old(self).valid(),
        ensures
            r is Ok ==> final(self).wf(),
            r is Ok && old(self).sources_sorted() ==> final(self).sources_sorted() && (final(self).valid()
                ==> !key_greater(old(self).current_key(), final(self).current_key())),
            old(self).sources_infallible() ==> r is Ok && final(self).sources_infallible(),
            r is Ok ==> heads_ordered(
                final(self).sources(),
                final(self).valid(),
                final(self).current_pos(),
                final(self).current_key(),
            ),
            r is Ok ==> forall|p: usize|
                #[trigger] final(self).sources().contains_key(p) ==> old(self).sources().contains_key(p),
            r is Ok ==> left_of(final(self).sources(), old(self).current_pos()) == old(self).sources()[old(
                self,
            ).current_pos()].drop_first(),
            r is Ok && old(self).sources_sorted() && versions_consistent(old(self).sources()) ==> forall|p: usize|
                #[trigger] final(self).sources().contains_key(p) && p != old(self).current_pos()
                    ==> final(self).sources()[p][0].0 != old(self).current_key(),
            r is Ok ==> forall|p: usize|
                #[trigger] old(self).sources().contains_key(p) && p != old(self).current_pos() ==> skipped_at(
                    old(self).sources()[p],
                    left_of(final(self).sources(), p),
                    old(self).current_key(),
                ),
            r is Ok ==> merge_moved(old(self).merge_state(), final(self).merge_state()),
    {
        proof {
            if sorted_map(self.sources()) {
                self.lemma_sorted_view();
            }
        }
        let ghost inf0 = self.sources_infallible();
        let ghost big_m = self.sources();
        let ghost m0 = queue_sources(self.iters@);
        let ghost sorted0 = self.sources_sorted();
        let ghost k = self.current_key();
        let mut current = match self.current.take() {
            Some(c) => c,
            None => vstd::pervasive::unreached(),
        };
        let ghost pos = current.0;
        let ghost e0 = current.1.entries();
        proof {
            lemma_progress_start(m0, k);
            if sorted0 {
                assert forall|i: int| 0 <= i < self.iters@.len() implies !key_greater(k, head(#[trigger] self.iters@[i])) by {
                    lemma_before_total(pos, k, self.iters@[i].0, head(self.iters@[i]), pos, k);
                }
            }
        }
        loop
            invariant
                queue_ok(self.iters@),
                current.0 == pos,
                current.1.entries().len() > 0,
                head(current) == k,
                self.current is None,
                forall|a: int, b: int| 0 <= a < b < self.iters@.len() ==> (#[trigger] self.iters@[a]).0 != (#[trigger] self.iters@[b]).0,
                forall|i: int| 0 <= i < self.iters@.len() ==> (#[trigger] self.iters@[i]).0 != pos,
                sorted0 ==> all_sorted(self.iters@) && sorted_entries(current.1.entries()),
                sorted0 ==> forall|i: int| 0 <= i < self.iters@.len() ==> !key_greater(k, head(#[trigger] self.iters@[i])),
                inf0 == old(self).sources_infallible(),
                inf0 ==> all_infallible(self.iters@) && current.1.infallible(),
                current.1.entries() == e0,
                queue_progress(m0, queue_sources(self.iters@), k),
            ensures
                self.iters@.len() == 0 || head(self.iters@[0]) != k,
            decreases total_len(self.iters@),
        {
            if self.iters.len() == 0 {
                break;
            }
            let same = {
                let a = self.iters[0].1.key();
                let b = current.1.key();
                a == b
            };
            if !same {
                break;
            }
            let ghost q = self.iters@;
            let mut top = self.iters.remove(0);
            proof {
                lemma_qs_remove_first(q);
                lemma_qs_at(q, 0);
                lemma_total_remove_first(q);
                if inf0 {
                    lemma_infallible_remove_first(q);
                }
                assert forall|i: int| 0 <= i < self.iters@.len() implies (#[trigger] self.iters@[i]) == q[i + 1] by {}
            }
            let ghost top_entries = top.1.entries();
            match top.1.next() {
                Err(e) => {
                    self.current = Some(current);
                    return Err(e);
                },
                Ok(()) => {},
            }
            if top.1.is_valid() {
                let ghost before = self.iters@;
                proof {
                    assert(top.0 == q[0].0);
                    assert(top_entries[0].0 == k);
                    if sorted0 {
                        lemma_sorted_drop_first(top_entries);
                        assert(top.1.entries() == top_entries.drop_first());
                    }
                }
                let ghost top_view = top;
                Self::enqueue(&mut self.iters, top);
                proof {
                    let kk = choose|kk: int| 0 <= kk <= before.len() && self.iters@ == before.insert(kk, top_view);
                    lemma_total_insert(before, kk, top_view);
                    if inf0 {
                        lemma_infallible_insert(before, kk, top_view);
                    }
                    lemma_qs_insert(before, kk, top_view);
                    assert(queue_sources(self.iters@) =~= queue_sources(q).remove(q[0].0).insert(
                        q[0].0,
                        q[0].1.entries().drop_first(),
                    ));
                    lemma_progress_step(m0, queue_sources(q), queue_sources(self.iters@), q[0].0, k);
                    assert forall|i: int| 0 <= i < self.iters@.len() implies (#[trigger] self.iters@[i]).0 != pos
                        && (sorted0 ==> sorted_entries(self.iters@[i].1.entries()) && !key_greater(
                        k,
                        head(self.iters@[i]),
                    )) by {
                        if i < kk {
                            assert(self.iters@[i] == before[i]);
                        } else if i > kk {
                            assert(self.iters@[i] == before[i - 1]);
                        } else {
                            assert(self.iters@[i] == top_view);
                        }
                    }
                    assert forall|a: int, b: int| 0 <= a < b < self.iters@.len() implies (#[trigger] self.iters@[a]).0
                        != (#[trigger] self.iters@[b]).0 by {
                        if a != kk && b != kk {
                            let a0 = if a < kk { a } else { a - 1 };
                            let b0 = if b < kk { b } else { b - 1 };
                            assert(self.iters@[a] == before[a0]);
                            assert(self.iters@[b] == before[b0]);
                        } else if a == kk {
                            assert(self.iters@[b] == before[b - 1]);
                            assert(before[b - 1] == q[b]);
                        } else {
                            let a0 = if a < kk { a } else { a - 1 };
                            assert(self.iters@[a] == before[a0]);
                            assert(before[a0] == q[a0 + 1]);
                        }
                    }
                }
            } else {
                proof {
                    lemma_progress_step(m0, queue_sources(q), queue_sources(self.iters@), q[0].0, k);
                }
            }
        }
        let ghost mf = queue_sources(self.iters@);
        proof {
            if sorted0 && versions_consistent(big_m) {
                assert forall|p: usize| #[trigger] m0.contains_key(p) implies big_m.contains_key(p) && big_m[p]
                    == m0[p] by {
                    assert(p != pos) by {
                        if p == pos {
                            let q0 = old(self).iters@;
                            let j = choose|j: int| 0 <= j < q0.len() && (#[trigger] q0[j]).0 == pos;
                        }
                    }
                }
                lemma_heads_past_key(self.iters@, m0, big_m, pos, k);
            }
        }
        let ghost e1 = e0.drop_first();
        let ghost g = if e1.len() > 0 {
            mf.insert(pos, e1)
        } else {
            mf
        };
        let ghost cur_entries = current.1.entries();
        match current.1.next() {
            Err(e) => {
                self.current = Some(current);
                return Err(e);
            },
            Ok(()) => {},
        }
        proof {
            if sorted0 {
                lemma_sorted_drop_first(cur_entries);
                if cur_entries.len() > 1 {
                    lemma_key_order_total(k, cur_entries[0].0, cur_entries[1].0);
                }
            }
        }
        if !current.1.is_valid() {
            if self.iters.len() > 0 {
                let ghost q = self.iters@;
                current = self.iters.remove(0);
                proof {
                    lemma_qs_remove_first(q);
                    lemma_qs_at(q, 0);
                    assert(all_sources(self.iters@, Some(current)) =~= g);
                    if inf0 {
                        lemma_infallible_remove_first(q);
                    }
                    assert forall|i: int| 0 <= i < self.iters@.len() implies (#[trigger] self.iters@[i]) == q[i + 1] by {}
                    assert forall|i: int| 0 <= i < self.iters@.len() implies wrapper_before(current, #[trigger] self.iters@[i]) by {
                        assert(self.iters@[i] == q[i + 1]);
                    }
                }
            } else {
                proof {
                    assert(all_sources(self.iters@, Some(current)) =~= g);
                }
            }
        } else if self.iters.len() > 0 && Self::before(&self.iters[0], &current) {
            let ghost q = self.iters@;
            let top = self.iters.remove(0);
            proof {
                if inf0 {
                    lemma_infallible_remove_first(q);
                }
                assert forall|i: int| 0 <= i < self.iters@.len() implies (#[trigger] self.iters@[i]) == q[i + 1] by {}
                assert forall|i: int| 0 <= i < self.iters@.len() implies (#[trigger] self.iters@[i]).0 != current.0 by {
                    assert(self.iters@[i] == q[i + 1]);
                }
            }
            let ghost before = self.iters@;
            let ghost old_cur = current;
            Self::enqueue(&mut self.iters, current);
            current = top;
            proof {
                let kk = choose|kk: int| 0 <= kk <= before.len() && self.iters@ == before.insert(kk, old_cur);
                lemma_qs_remove_first(q);
                lemma_qs_at(q, 0);
                lemma_qs_insert(before, kk, old_cur);
                assert(all_sources(self.iters@, Some(current)) =~= g);
                if inf0 {
                    lemma_infallible_insert(before, kk, old_cur);
                }
                assert forall|i: int| 0 <= i < self.iters@.len() implies wrapper_before(current, #[trigger] self.iters@[i])
                    && (#[trigger] self.iters@[i]).0 != current.0 && (sorted0 ==> sorted_entries(self.iters@[i].1.entries())) by {
                    if i < kk {
                        assert(self.iters@[i] == before[i]);
                        assert(before[i] == q[i + 1]);
                    } else if i > kk {
                        assert(self.iters@[i] == before[i - 1]);
                        assert(before[i - 1] == q[i]);
                    }
                }
                assert forall|a: int, b: int| 0 <= a < b < self.iters@.len() implies (#[trigger] self.iters@[a]).0
                    != (#[trigger] self.iters@[b]).0 by {
                    if a != kk && b != kk {
                        let a0 = if a < kk { a } else { a - 1 };
                        let b0 = if b < kk { b } else { b - 1 };
                        assert(self.iters@[a] == before[a0]);
                        assert(self.iters@[b] == before[b0]);
                    } else if a == kk {
                        assert(self.iters@[b] == before[b - 1]);
                    } else {
                        let a0 = if a < kk { a } else { a - 1 };
                        assert(self.iters@[a] == before[a0]);
                    }
                }
            }
        } else {
            proof {
                if self.iters@.len() > 0 {
                    lemma_before_total(self.iters@[0].0, head(self.iters@[0]), current.0, head(current), current.0, head(current));
                    assert forall|i: int| 0 <= i < self.iters@.len() implies wrapper_before(current, #[trigger] self.iters@[i]) by {
                        if i > 0 {
                            lemma_before_total(current.0, head(current), self.iters@[0].0, head(self.iters@[0]), self.iters@[i].0, head(self.iters@[i]));
                        }
                    }
                }
                assert(all_sources(self.iters@, Some(current)) =~= g);
            }
        }
        self.current = Some(current);
        proof {
            assert(self.sources() == g);
            self.lemma_wf_heads();
            assert(!m0.contains_key(pos)) by {
                if m0.contains_key(pos) {
                    let q0 = old(self).iters@;
                    let j = choose|j: int| 0 <= j < q0.len() && (#[trigger] q0[j]).0 == pos;
                }
            }
            assert(big_m == m0.insert(pos, e0));
            lemma_next_sources(big_m, m0, mf, pos, e0, k, g);
        }
        Ok(())
    }
}

/// Whether a key lies below the range's start (never, for an open start).
pub open spec fn below_start(k: KeyView, start: Option<KeyView>) -> bool {
    match start {
        Some(s) => key_less(k, s),
        None => false,
    }
}

/// Whether a key lies at or past the range's end (never, for an open end).
pub open spec fn at_or_past_end(k: KeyView, end: Option<KeyView>) -> bool {
    match end {
        Some(e) => !key_less(k, e),
        None => false,
    }
}

/// The entries a range gives from `s` on: entries below the start are
/// skipped, and the first entry at or past the end stops it.
pub open spec fn limited(s: Seq<EntryView>, start: Option<KeyView>, end: Option<KeyView>) -> Seq<EntryView>
    decreases s.len(),
{
    if s.len() == 0 || at_or_past_end(s[0].0, end) {
        Seq::empty()
    } else if below_start(s[0].0, start) {
        limited(s.drop_first(), start, end)
    } else {
        seq![s[0]] + limited(s.drop_first(), start, end)
    }
}

/// A range gives only keys inside it: none below the start, none at or
/// past the end.
pub proof fn lemma_limited_in_range(s: Seq<EntryView>, start: Option<KeyView>, end: Option<KeyView>)
    ensures
        forall|i: int|
            0 <= i < limited(s, start, end).len() ==> !below_start(#[trigger] limited(s, start, end)[i].0, start)
                && !at_or_past_end(limited(s, start, end)[i].0, end),
    decreases s.len(),
{
    if s.len() > 0 && !at_or_past_end(s[0].0, end) {
        lemma_limited_in_range(s.drop_first(), start, end);
        let l = limited(s, start, end);
        let rest = limited(s.drop_first(), start, end);
        if !below_start(s[0].0, start) {
            assert forall|i: int| 0 <= i < l.len() implies !below_start(#[trigger] l[i].0, start) && !at_or_past_end(l[i].0, end) by {
                if i > 0 {
                    assert(l[i] == rest[i - 1]);
                }
            }
        }
    }
}

pub open spec fn opt_key_view(k: Option<KeyBytes>) -> Option<KeyView> {
    match k {
        Some(x) => Some(x@),
        None => None,
    }
}

/// An iterator limited to a key range `[start, end)`: entries below the
/// start are skipped, and the first entry at or past the end stops it.
pub struct RangeLimiter<I: StorageIterator> {
    inner: I,
    start: Option<KeyBytes>,
    end: Option<KeyBytes>,
}

impl<I: StorageIterator> RangeLimiter<I> {
    pub closed spec fn inner_entries(&self) -> Seq<EntryView> {
        self.inner.entries()
    }

    pub closed spec fn range(&self) -> (Option<KeyView>, Option<KeyView>) {
        (opt_key_view(self.start), opt_key_view(self.end))
    }

    /// Whether moving the limited iterator on can never fail.
    pub closed spec fn inner_infallible(&self) -> bool {
        self.inner.infallible()
    }

    /// Limits `inner` to `[start, end)`, moving it past the entries below
    /// the start; a failure of `inner` while doing so is handed back.
    pub fn new(inner: I, start: Option<KeyBytes>, end: Option<KeyBytes>) -> (r: Result<Self, LsmError>)
        ensures
            inner.infallible() ==> r is Ok,
            r matches Ok(l) ==> {
                &&& l.range() == (opt_key_view(start), opt_key_view(end))
                &&& inner.infallible() ==> l.inner_infallible()
                &&& l.entries() == limited(inner.entries(), opt_key_view(start), opt_key_view(end))
                &&& forall|i: int|
                    0 <= i < l.entries().len() ==> !below_start(#[trigger] l.entries()[i].0, l.range().0)
                        && !at_or_past_end(l.entries()[i].0, l.range().1)
            },
    {
        let mut l = RangeLimiter { inner, start, end };
        let ghost rg = l.range();
        let ghost s = l.inner.entries();
        match l.advance_until_valid() {
            Ok(()) => {},
            Err(e) => {
                return Err(e);
            },
        }
        proof {
            let t = l.inner.entries();
            if t.len() > 0 && !at_or_past_end(t[0].0, rg.1) {
                assert(!below_start(t[0].0, rg.0));
                assert(limited(t, rg.0, rg.1) == seq![t[0]] + limited(t.drop_first(), rg.0, rg.1));
            }
            assert(l.entries() =~= limited(s, rg.0, rg.1));
            lemma_limited_in_range(s, rg.0, rg.1);
        }
        Ok(l)
    }

    fn in_range_start(&self, k: &KeySlice) -> (r: bool)
        ensures
            r == !below_start(k@, self.range().0),
    {
        match &self.start {
            Some(s) => !key_lt(k, &s.as_key_slice()),
            None => true,
        }
    }

    fn past_end(&self, k: &KeySlice) -> (r: bool)
        ensures
            r == at_or_past_end(k@, self.range().1),
    {
        match &self.end {
            Some(e) => !key_lt(k, &e.as_key_slice()),
            None => false,
        }
    }

    /// Skips entries below the start, stopping at an entry in range or at
    /// the end.
    fn advance_until_valid(&mut self) -> (r: Result<(), LsmError>)
        ensures
            final(self).range() == old(self).range(),
            r is Ok ==> limited(final(self).inner_entries(), final(self).range().0, final(self).range().1)
                == limited(old(self).inner_entries(), old(self).range().0, old(self).range().1),
            r is Ok ==> final(self).inner_entries().len() == 0 || at_or_past_end(
                final(self).inner_entries()[0].0,
                final(self).range().1,
            ) || !below_start(final(self).inner_entries()[0].0, final(self).range().0),
            old(self).inner_infallible() ==> r is Ok && final(self).inner_infallible(),
    {
        let ghost inf0 = self.inner_infallible();
        let ghost rg = self.range();
        let ghost target = limited(self.inner.entries(), rg.0, rg.1);
        while self.inner.is_valid()
            invariant
                self.range() == rg,
                rg == old(self).range(),
                limited(self.inner.entries(), rg.0, rg.1) == target,
                inf0 == old(self).inner_infallible(),
                inf0 ==> self.inner.infallible(),
            ensures
                self.range() == rg,
                inf0 ==> self.inner.infallible(),
                limited(self.inner.entries(), rg.0, rg.1) == target,
                self.inner.entries().len() == 0 || at_or_past_end(self.inner.entries()[0].0, rg.1)
                    || !below_start(self.inner.entries()[0].0, rg.0),
            decreases self.inner.entries().len(),
        {
            let key = self.inner.key();
            let ge_start = self.in_range_start(&key);
            let beyond = self.past_end(&key);
            if ge_start && !beyond {
                break;
            }
            if beyond {
                break;
            }
            let ghost before = self.inner.entries();
            match self.inner.next() {
                Ok(()) => {},
                Err(e) => {
                    return Err(e);
                },
            }
            assert(self.inner.entries() == before.drop_first());
        }
        Ok(())
    }
}

impl<I: StorageIterator> StorageIterator for RangeLimiter<I> {
    closed spec fn entries(&self) -> Seq<EntryView> {
        let s = self.inner.entries();
        if s.len() == 0 || at_or_past_end(s[0].0, opt_key_view(self.end)) {
            Seq::empty()
        } else {
            seq![s[0]] + limited(s.drop_first(), opt_key_view(self.start), opt_key_view(self.end))
        }
    }

    closed spec fn active_count(&self) -> nat {
        self.inner.active_count()
    }

    /// A limited iterator fails only where the one it limits does.
    closed spec fn infallible(&self) -> bool {
        self.inner.infallible()
    }

    fn value(&self) -> (r: &[u8]) {
        self.inner.value()
    }

    fn key(&self) -> (r: KeySlice<'_>) {
        self.inner.key()
    }

    fn is_valid(&self) -> (r: bool) {
        if !self.inner.is_valid() {
            return false;
        }
        let k = self.inner.key();
        !self.past_end(&k)
    }

    fn next(&mut self) -> (r: Result<(), LsmError>) {
        let ghost old_entries = self.entries();
        let ghost s = self.inner.entries();
        let ghost rg = self.range();
        if self.inner.is_valid() {
            match self.inner.next() {
                Ok(()) => {},
                Err(e) => {
                    return Err(e);
                },
            }
        }
        match self.advance_until_valid() {
            Ok(()) => {},
            Err(e) => {
                return Err(e);
            },
        }
        proof {
            let t = self.inner.entries();
            assert(old_entries.drop_first() =~= limited(s.drop_first(), rg.0, rg.1));
            if t.len() > 0 && !at_or_past_end(t[0].0, rg.1) {
                assert(!below_start(t[0].0, rg.0));
                assert(limited(t, rg.0, rg.1) == seq![t[0]] + limited(t.drop_first(), rg.0, rg.1));
            }
        }
        Ok(())
    }

    fn num_active_iterators(&self) -> (r: usize) {
        self.inner.num_active_iterators()
    }
}

} // verus!
