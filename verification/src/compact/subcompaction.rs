//! Splitting one compaction into sub-compactions over disjoint key ranges:
//! where the ranges start and end, and which tables each of them reads.
use vstd::prelude::*;
use crate::key::{KeyBytes, KeyView, key_lt, key_gt};
use crate::key_order::{key_less, key_greater, lemma_key_order_total};
use crate::lsm_storage::SstMeta;

verus! {

/// A key range `[start, end)`; `None` leaves that side open.
pub type KeyRange = (Option<KeyBytes>, Option<KeyBytes>);

/// A key range as plain values.
pub open spec fn range_view(r: KeyRange) -> (Option<KeyView>, Option<KeyView>) {
    (
        match r.0 {
            Some(k) => Some(k@),
            None => None,
        },
        match r.1 {
            Some(k) => Some(k@),
            None => None,
        },
    )
}

/// Key ranges as plain values.
pub open spec fn ranges_view(rs: Seq<KeyRange>) -> Seq<(Option<KeyView>, Option<KeyView>)> {
    rs.map_values(|r: KeyRange| range_view(r))
}

/// Keys as plain values.
pub open spec fn keys_view(ks: Seq<KeyBytes>) -> Seq<KeyView> {
    ks.map_values(|k: KeyBytes| k@)
}

/// Every how many blocks a table's block keys are sampled: at most 64
/// samples per table.
pub open spec fn sample_step(block_count: nat) -> nat {
    if block_count / 64 >= 1 {
        block_count / 64
    } else {
        1
    }
}

/// The sampled first keys of blocks `i` up to, but not including, the last
/// block: those whose index is a multiple of `step`.
pub open spec fn sampled_blocks(blocks: Seq<KeyView>, step: nat, i: int) -> Seq<KeyView>
    decreases blocks.len() - i,
{
    if i >= blocks.len() - 1 || i < 0 {
        Seq::empty()
    } else {
        (if i % (step as int) == 0 {
            seq![blocks[i]]
        } else {
            Seq::empty()
        }) + sampled_blocks(blocks, step, i + 1)
    }
}

/// A table's anchor points: its first and last key and, with more than two
/// blocks, sampled first keys of its inner blocks.
pub open spec fn sst_samples(m: SstMeta) -> Seq<KeyView> {
    let blocks = keys_view(m.block_first_keys@);
    seq![m.first_key@, m.last_key@] + if blocks.len() > 2 {
        sampled_blocks(blocks, sample_step(blocks.len()), 1)
    } else {
        Seq::empty()
    }
}

/// The anchor points of all tables, table after table.
pub open spec fn anchor_points(ssts: Seq<SstMeta>) -> Seq<KeyView>
    decreases ssts.len(),
{
    if ssts.len() == 0 {
        Seq::empty()
    } else {
        anchor_points(ssts.drop_last()) + sst_samples(ssts.last())
    }
}

/// Where `x` goes into `s` when inserted after every element it does not
/// sort before.
pub open spec fn insert_pos(s: Seq<KeyView>, x: KeyView) -> nat
    decreases s.len(),
{
    if s.len() == 0 {
        0
    } else if key_greater(s.last(), x) {
        insert_pos(s.drop_last(), x)
    } else {
        s.len()
    }
}

/// Stable insertion sort by key order.
pub open spec fn sort_keys(s: Seq<KeyView>) -> Seq<KeyView>
    decreases s.len(),
{
    if s.len() == 0 {
        Seq::empty()
    } else {
        let sorted = sort_keys(s.drop_last());
        sorted.insert(insert_pos(sorted, s.last()) as int, s.last())
    }
}

/// Drops every key equal to the one before it.
pub open spec fn dedup_keys(s: Seq<KeyView>) -> Seq<KeyView>
    decreases s.len(),
{
    if s.len() <= 1 {
        s
    } else if s.last() == s[s.len() - 2] {
        dedup_keys(s.drop_last())
    } else {
        dedup_keys(s.drop_last()).push(s.last())
    }
}

/// The ranges cut at `points[step]`, `points[2 * step]`, ..., with `count`
/// ranges in all.
pub open spec fn cut_ranges(points: Seq<KeyView>, step: nat, count: nat) -> Seq<(Option<KeyView>, Option<KeyView>)>
    decreases count,
{
    if count <= 1 {
        seq![(None, None)]
    } else {
        let prev = cut_ranges(points, step, (count - 1) as nat);
        let cut = points[(count - 1) * step];
        prev.update(prev.len() - 1, (prev.last().0, Some(cut))).push((Some(cut), None))
    }
}

/// The sub-compaction ranges: one open range when splitting is off, there
/// is no table or fewer than two distinct anchor points; otherwise as many
/// ranges as asked for (at most one fewer than the anchor points), cut at
/// evenly spaced anchor points.
pub open spec fn spec_boundaries(ssts: Seq<SstMeta>, num_subcompactions: nat) -> Seq<(Option<KeyView>, Option<KeyView>)> {
    let points = dedup_keys(sort_keys(anchor_points(ssts)));
    let n = points.len();
    let eff = if num_subcompactions <= n - 1 { num_subcompactions } else { (n - 1) as nat };
    if ssts.len() == 0 || num_subcompactions <= 1 || n <= 1 || eff <= 1 {
        seq![(None, None)]
    } else {
        cut_ranges(points, n / eff, eff)
    }
}

fn push_key_views(out: &mut Vec<KeyBytes>, k: &KeyBytes)
    ensures
        keys_view(final(out)@) == keys_view(old(out)@).push(k@),
{
    out.push(k.clone_key());
    assert(keys_view(out@) =~= keys_view(old(out)@).push(k@));
}

/// Appends a table's anchor points.
fn push_samples(out: &mut Vec<KeyBytes>, m: &SstMeta)
    ensures
        keys_view(final(out)@) == keys_view(old(out)@) + sst_samples(*m),
{
    push_key_views(out, &m.first_key);
    push_key_views(out, &m.last_key);
    let ghost blocks = keys_view(m.block_first_keys@);
    let ghost base = keys_view(out@);
    assert(base == keys_view(old(out)@) + seq![m.first_key@, m.last_key@]);
    let block_count = m.block_first_keys.len();
    if block_count > 2 {
        let step = if block_count / 64 >= 1 {
            block_count / 64
        } else {
            1
        };
        let mut i: usize = 1;
        while i < block_count
            invariant
                1 <= i <= block_count == m.block_first_keys@.len() == blocks.len(),
                block_count > 2,
                step == sample_step(blocks.len()),
                blocks == keys_view(m.block_first_keys@),
                base == keys_view(old(out)@) + seq![m.first_key@, m.last_key@],
                keys_view(out@) + sampled_blocks(blocks, step as nat, i as int) == base + sampled_blocks(
                    blocks,
                    step as nat,
                    1,
                ),
            decreases block_count - i,
        {
            let ghost prev = keys_view(out@);
            if i % step == 0 && i < block_count - 1 {
                push_key_views(out, &m.block_first_keys[i]);
                assert(blocks[i as int] == m.block_first_keys@[i as int]@);
                assert(keys_view(out@) + sampled_blocks(blocks, step as nat, i + 1) =~= prev
                    + sampled_blocks(blocks, step as nat, i as int));
            } else {
                assert(sampled_blocks(blocks, step as nat, i as int) =~= sampled_blocks(
                    blocks,
                    step as nat,
                    i + 1,
                ));
            }
            i = i + 1;
        }
        assert(sampled_blocks(blocks, step as nat, i as int) =~= Seq::<KeyView>::empty());
        assert(keys_view(out@) =~= keys_view(out@) + Seq::<KeyView>::empty());
        assert(keys_view(out@) =~= keys_view(old(out)@) + sst_samples(*m));
    } else {
        assert(keys_view(out@) =~= keys_view(old(out)@) + sst_samples(*m));
    }
}

/// Inserts `x` after every key it does not sort before.
fn insert_sorted(v: &mut Vec<KeyBytes>, x: KeyBytes)
    ensures
        keys_view(final(v)@) == keys_view(old(v)@).insert(
            insert_pos(keys_view(old(v)@), x@) as int,
            x@,
        ),
{
    let ghost s = keys_view(v@);
    assert(s.take(v@.len() as int) =~= s);
    let mut j: usize = v.len();
    while j > 0 && key_gt(&v[j - 1], &x)
        invariant
            0 <= j <= v@.len(),
            s == keys_view(v@),
            v@ == old(v)@,
            insert_pos(s, x@) == insert_pos(s.take(j as int), x@),
        decreases j,
    {
        assert(s.take(j as int).drop_last() =~= s.take(j - 1));
        assert(s.take(j as int).last() == v@[j - 1]@);
        j = j - 1;
    }
    proof {
        if j > 0 {
            assert(s.take(j as int).last() == v@[j - 1]@);
        }
        assert(s.take(0) =~= Seq::<KeyView>::empty());
    }
    v.insert(j, x);
    assert(keys_view(v@) =~= s.insert(j as int, x@));
}

/// The keys sorted by key order; keys that sort the same keep the order
/// they came in.
fn sort_key_list(keys: Vec<KeyBytes>) -> (r: Vec<KeyBytes>)
    ensures
        keys_view(r@) == sort_keys(keys_view(keys@)),
{
    let mut out: Vec<KeyBytes> = Vec::new();
    let mut rest = keys;
    let ghost all = keys_view(rest@);
    let ghost mut done: Seq<KeyView> = Seq::empty();
    while rest.len() > 0
        invariant
            done + keys_view(rest@) == all,
            keys_view(out@) == sort_keys(done),
        decreases rest@.len(),
    {
        let ghost before = done;
        let ghost rest_before = keys_view(rest@);
        let x = rest.remove(0);
        proof {
            done = done.push(x@);
            assert(done.drop_last() =~= before);
            assert(rest_before =~= seq![x@] + keys_view(rest@));
            assert(done + keys_view(rest@) =~= all);
        }
        insert_sorted(&mut out, x);
    }
    assert(done =~= all);
    out
}

/// Removes every key equal to the one before it.
fn dedup_key_list(keys: &Vec<KeyBytes>) -> (r: Vec<KeyBytes>)
    ensures
        keys_view(r@) == dedup_keys(keys_view(keys@)),
{
    let ghost s = keys_view(keys@);
    let mut out: Vec<KeyBytes> = Vec::new();
    let mut i: usize = 0;
    while i < keys.len()
        invariant
            0 <= i <= keys@.len(),
            s == keys_view(keys@),
            keys_view(out@) == dedup_keys(s.take(i as int)),
        decreases keys@.len() - i,
    {
        let ghost t = s.take(i + 1);
        assert(t.drop_last() =~= s.take(i as int));
        if i > 0 && keys[i] == keys[i - 1] {
            assert(t.last() == t[t.len() - 2]);
        } else {
            push_key_views(&mut out, &keys[i]);
            if i > 0 {
                assert(t.last() != t[t.len() - 2]);
            } else {
                assert(t =~= seq![keys@[0]@]);
            }
        }
        i = i + 1;
    }
    assert(s.take(keys@.len() as int) =~= s);
    out
}

fn some_key(k: &KeyBytes) -> (r: Option<KeyBytes>)
    ensures
        r matches Some(c) && c@ == k@,
{
    Some(k.clone_key())
}

/// Appends the anchor points of the tables.
fn collect_anchors(ssts: &Vec<SstMeta>, anchors: &mut Vec<KeyBytes>)
    ensures
        keys_view(final(anchors)@) == keys_view(old(anchors)@) + anchor_points(ssts@),
{
    let mut i: usize = 0;
    while i < ssts.len()
        invariant
            0 <= i <= ssts@.len(),
            keys_view(anchors@) == keys_view(old(anchors)@) + anchor_points(ssts@.take(i as int)),
        decreases ssts@.len() - i,
    {
        let ghost prev = keys_view(anchors@);
        push_samples(anchors, &ssts[i]);
        assert(ssts@.take(i + 1).drop_last() =~= ssts@.take(i as int));
        assert(keys_view(anchors@) =~= keys_view(old(anchors)@) + anchor_points(ssts@.take(i + 1)));
        i = i + 1;
    }
    assert(ssts@.take(ssts@.len() as int) =~= ssts@);
}

proof fn lemma_anchor_points_concat(a: Seq<SstMeta>, b: Seq<SstMeta>)
    ensures
        anchor_points(a + b) == anchor_points(a) + anchor_points(b),
    decreases b.len(),
{
    if b.len() == 0 {
        assert(a + b =~= a);
        assert(anchor_points(a) + Seq::<KeyView>::empty() =~= anchor_points(a));
    } else {
        assert((a + b).drop_last() =~= a + b.drop_last());
        lemma_anchor_points_concat(a, b.drop_last());
        assert(anchor_points(a + b) =~= anchor_points(a) + anchor_points(b));
    }
}

/// Splits the key space of the tables into ranges for sub-compactions.
pub fn find_subcompaction_boundaries(ssts: &Vec<SstMeta>, num_subcompactions: usize) -> (r: Vec<KeyRange>)
    ensures
        ranges_view(r@) == spec_boundaries(ssts@, num_subcompactions as nat),
{
    let mut anchors: Vec<KeyBytes> = Vec::new();
    collect_anchors(ssts, &mut anchors);
    assert(keys_view(anchors@) =~= anchor_points(ssts@));
    boundaries_from_anchors(anchors, ssts.len() > 0, num_subcompactions)
}

/// The ranges of the given anchor points (of a non-empty set of tables when
/// `has_tables` holds).
fn boundaries_from_anchors(anchors: Vec<KeyBytes>, has_tables: bool, num_subcompactions: usize) -> (r: Vec<KeyRange>)
    ensures
        ({
            let points = dedup_keys(sort_keys(keys_view(anchors@)));
            let n = points.len();
            let eff = if num_subcompactions <= n - 1 { num_subcompactions as nat } else { (n - 1) as nat };
            ranges_view(r@) == if !has_tables || num_subcompactions <= 1 || n <= 1 || eff <= 1 {
                seq![(None, None)]
            } else {
                cut_ranges(points, n / eff, eff)
            }
        }),
{
    if !has_tables || num_subcompactions <= 1 {
        let r = vec![(None, None)];
        assert(ranges_view(r@) =~= seq![(None::<KeyView>, None::<KeyView>)]);
        return r;
    }
    let sorted = sort_key_list(anchors);
    let points = dedup_key_list(&sorted);
    let ghost pv = keys_view(points@);
    let n = points.len();
    assert(pv.len() == n);
    if n <= 1 {
        let r = vec![(None, None)];
        assert(ranges_view(r@) =~= seq![(None::<KeyView>, None::<KeyView>)]);
        return r;
    }
    let eff = if num_subcompactions <= n - 1 {
        num_subcompactions
    } else {
        n - 1
    };
    if eff <= 1 {
        let r = vec![(None, None)];
        assert(ranges_view(r@) =~= seq![(None::<KeyView>, None::<KeyView>)]);
        return r;
    }
    let step = n / eff;
    proof {
        assert(step >= 1) by (nonlinear_arith)
            requires
                step == n / eff,
                eff <= n - 1,
                eff > 1,
        ;
    }
    let mut boundaries: Vec<KeyRange> = Vec::new();
    let mut start: Option<KeyBytes> = None;
    let mut count: usize = 1;
    while count < eff
        invariant
            1 <= count <= eff,
            eff <= n - 1,
            step == n / eff,
            step >= 1,
            n == points@.len(),
            pv == keys_view(points@),
            boundaries@.len() == count - 1,
            ranges_view(boundaries@.push((start, None))) == cut_ranges(pv, step as nat, count as nat),
        decreases eff - count,
    {
        proof {
            assert(eff * step <= n) by (nonlinear_arith)
                requires
                    step == n / eff,
                    eff >= 1,
                    n >= 0,
            ;
            assert(count * step < n) by (nonlinear_arith)
                requires
                    count < eff,
                    eff * step <= n,
                    step >= 1,
            {
                assert(count * step <= (eff - 1) * step);
            }
        }
        let idx = count * step;
        let end = some_key(&points[idx]);
        let ghost prev = ranges_view(boundaries@.push((start, None)));
        let end_copy = some_key(&points[idx]);
        boundaries.push((start, end));
        start = end_copy;
        proof {
            let cut = pv[idx as int];
            assert(cut_ranges(pv, step as nat, (count + 1) as nat) == prev.update(
                prev.len() - 1,
                (prev.last().0, Some(cut)),
            ).push((Some(cut), None)));
            assert(ranges_view(boundaries@.push((start, None))) =~= prev.update(
                prev.len() - 1,
                (prev.last().0, Some(cut)),
            ).push((Some(cut), None)));
        }
        count = count + 1;
    }
    boundaries.push((start, None));
    boundaries
}

/// Whether a table spanning `first..=last` reaches into `[start, end)`.
pub open spec fn spec_overlaps_range(
    first: KeyView,
    last: KeyView,
    start: Option<KeyView>,
    end: Option<KeyView>,
) -> bool {
    &&& match start {
        Some(s) => !key_less(last, s),
        None => true,
    }
    &&& match end {
        Some(e) => key_less(first, e),
        None => true,
    }
}

/// A table holding a key inside a range reaches into that range: for any
/// key between the table's first and last key and inside `[start, end)`.
pub proof fn lemma_overlap_of_shared_key(
    first: KeyView,
    last: KeyView,
    start: Option<KeyView>,
    end: Option<KeyView>,
    k: KeyView,
)
    requires
        !key_less(k, first),
        !key_greater(k, last),
        start matches Some(s) ==> !key_less(k, s),
        end matches Some(e) ==> key_less(k, e),
    ensures
        spec_overlaps_range(first, last, start, end),
{
    lemma_key_order_total(first, k, last);
    lemma_key_order_total(k, first, last);
    lemma_key_order_total(last, k, first);
    if let Some(s0) = start {
        lemma_key_order_total(s0, k, last);
        lemma_key_order_total(k, s0, last);
        lemma_key_order_total(last, s0, k);
        lemma_key_order_total(last, k, s0);
    }
    if let Some(e) = end {
        lemma_key_order_total(first, k, e);
        lemma_key_order_total(k, first, e);
    }
}

/// Whether the table reaches into the range.
pub fn sst_overlaps_range(sst: &SstMeta, start: &Option<KeyBytes>, end: &Option<KeyBytes>) -> (r: bool)
    ensures
        r == spec_overlaps_range(
            sst.first_key@,
            sst.last_key@,
            range_view((*start, *end)).0,
            range_view((*start, *end)).1,
        ),
{
    let after_start = match start {
        Some(s) => !key_lt(&sst.last_key, s),
        None => true,
    };
    let before_end = match end {
        Some(e) => key_lt(&sst.first_key, e),
        None => true,
    };
    after_start && before_end
}

/// The consecutive ranges of a split cover the key space: the first is
/// open below, the last open above, and each ends where the next starts.
pub proof fn lemma_boundaries_cover(ssts: Seq<SstMeta>, num_subcompactions: nat)
    ensures
        ({
            let b = spec_boundaries(ssts, num_subcompactions);
            &&& b.len() >= 1
            &&& b[0].0 is None
            &&& b.last().1 is None
            &&& forall|i: int| 0 <= i < b.len() - 1 ==> #[trigger] b[i].1 == b[i + 1].0 && b[i].1 is Some
        }),
{
    let points = dedup_keys(sort_keys(anchor_points(ssts)));
    let n = points.len();
    let eff = if num_subcompactions <= n - 1 { num_subcompactions } else { (n - 1) as nat };
    if !(ssts.len() == 0 || num_subcompactions <= 1 || n <= 1 || eff <= 1) {
        lemma_cut_ranges_cover(points, n / eff, eff);
    }
}

proof fn lemma_cut_ranges_cover(points: Seq<KeyView>, step: nat, count: nat)
    ensures
        ({
            let b = cut_ranges(points, step, count);
            &&& b.len() == if count <= 1 { 1 } else { count }
            &&& b[0].0 is None
            &&& b.last().1 is None
            &&& forall|i: int| 0 <= i < b.len() - 1 ==> #[trigger] b[i].1 == b[i + 1].0 && b[i].1 is Some
        }),
    decreases count,
{
    if count > 1 {
        lemma_cut_ranges_cover(points, step, (count - 1) as nat);
        let prev = cut_ranges(points, step, (count - 1) as nat);
        let cut = points[(count - 1) * step];
        let b = cut_ranges(points, step, count);
        assert(b == prev.update(prev.len() - 1, (prev.last().0, Some(cut))).push((Some(cut), None)));
        assert forall|i: int| 0 <= i < b.len() - 1 implies #[trigger] b[i].1 == b[i + 1].0 && b[i].1 is Some by {
            if i < b.len() - 2 {
                assert(b[i] == prev[i]);
                assert(b[i + 1] == if i + 1 == prev.len() - 1 { (prev.last().0, Some(cut)) } else { prev[i + 1] });
            }
        }
        if prev.len() == 1 {
            assert(b[0] == (prev[0].0, Some(cut)));
        }
    }
}

/// The first keys of tables, as plain values.
pub open spec fn first_keys(ssts: Seq<SstMeta>) -> Seq<KeyView> {
    ssts.map_values(|m: SstMeta| m.first_key@)
}

/// Where table index `x` goes into the index list `s` when inserted after
/// every table whose first key it does not sort before.
pub open spec fn insert_pos_by_first(s: Seq<usize>, keys: Seq<KeyView>, x: usize) -> nat
    decreases s.len(),
{
    if s.len() == 0 {
        0
    } else if key_greater(keys[s.last() as int], keys[x as int]) {
        insert_pos_by_first(s.drop_last(), keys, x)
    } else {
        s.len()
    }
}

/// Stable insertion sort of table indices by first key.
pub open spec fn sort_by_first(s: Seq<usize>, keys: Seq<KeyView>) -> Seq<usize>
    decreases s.len(),
{
    if s.len() == 0 {
        Seq::empty()
    } else {
        let sorted = sort_by_first(s.drop_last(), keys);
        sorted.insert(insert_pos_by_first(sorted, keys, s.last()) as int, s.last())
    }
}

/// The indices, in order, of the tables that reach into a range.
pub open spec fn overlapping(ssts: Seq<SstMeta>, start: Option<KeyView>, end: Option<KeyView>) -> Seq<usize>
    decreases ssts.len(),
{
    if ssts.len() == 0 {
        Seq::empty()
    } else {
        let prev = overlapping(ssts.drop_last(), start, end);
        if spec_overlaps_range(ssts.last().first_key@, ssts.last().last_key@, start, end) {
            prev.push((ssts.len() - 1) as usize)
        } else {
            prev
        }
    }
}

/// Whether the tables, in the given order, follow one another without
/// overlap: each ends before the next begins.
pub open spec fn strictly_ordered(ssts: Seq<SstMeta>, order: Seq<usize>) -> bool {
    forall|i: int|
        0 <= i < order.len() - 1 ==> key_less(
            #[trigger] ssts[order[i] as int].last_key@,
            ssts[order[i + 1] as int].first_key@,
        )
}

/// One sub-compaction: its key range, the upper and lower tables it reads
/// (indices, sorted by first key), and whether the upper tables follow one
/// another without overlap, so that they can be read one after the other.
pub struct SubcompactionPlan {
    pub start: Option<KeyBytes>,
    pub end: Option<KeyBytes>,
    pub upper: Vec<usize>,
    pub lower: Vec<usize>,
    pub upper_is_ordered: bool,
}

/// What a sub-compaction over `range` reads of the upper and lower tables.
pub open spec fn plan_matches(
    p: SubcompactionPlan,
    range: (Option<KeyView>, Option<KeyView>),
    upper: Seq<SstMeta>,
    lower: Seq<SstMeta>,
) -> bool {
    &&& range_view((p.start, p.end)) == range
    &&& p.upper@ == sort_by_first(overlapping(upper, range.0, range.1), first_keys(upper))
    &&& p.lower@ == sort_by_first(overlapping(lower, range.0, range.1), first_keys(lower))
    &&& p.upper_is_ordered == strictly_ordered(upper, p.upper@)
}

fn insert_by_first(v: &mut Vec<usize>, ssts: &Vec<SstMeta>, x: usize)
    requires
        x < ssts@.len(),
        forall|i: int| 0 <= i < old(v)@.len() ==> old(v)@[i] < ssts@.len(),
    ensures
        final(v)@ == old(v)@.insert(insert_pos_by_first(old(v)@, first_keys(ssts@), x) as int, x),
        forall|i: int| 0 <= i < final(v)@.len() ==> final(v)@[i] < ssts@.len(),
{
    let ghost s = v@;
    let ghost keys = first_keys(ssts@);
    assert(s.take(s.len() as int) =~= s);
    let mut j: usize = v.len();
    while j > 0 && key_gt(&ssts[v[j - 1]].first_key, &ssts[x].first_key)
        invariant
            0 <= j <= v@.len(),
            v@ == s,
            s == old(v)@,
            x < ssts@.len(),
            keys == first_keys(ssts@),
            forall|i: int| 0 <= i < s.len() ==> s[i] < ssts@.len(),
            insert_pos_by_first(s, keys, x) == insert_pos_by_first(s.take(j as int), keys, x),
        decreases j,
    {
        assert(s.take(j as int).drop_last() =~= s.take(j - 1));
        assert(s.take(j as int).last() == s[j - 1]);
        j = j - 1;
    }
    proof {
        if j > 0 {
            assert(s.take(j as int).last() == s[j - 1]);
            assert(keys[s[j - 1] as int] == ssts@[s[j - 1] as int].first_key@);
        }
        assert(s.take(0) =~= Seq::<usize>::empty());
    }
    v.insert(j, x);
    assert forall|i: int| 0 <= i < v@.len() implies v@[i] < ssts@.len() by {
        if i < j {
            assert(v@[i] == s[i]);
        } else if i > j {
            assert(v@[i] == s[i - 1]);
        }
    }
}

/// The indices of the tables that reach into the range, sorted by first key.
fn overlapping_sorted(ssts: &Vec<SstMeta>, start: &Option<KeyBytes>, end: &Option<KeyBytes>) -> (r: Vec<usize>)
    ensures
        r@ == sort_by_first(
            overlapping(ssts@, range_view((*start, *end)).0, range_view((*start, *end)).1),
            first_keys(ssts@),
        ),
        forall|i: int| 0 <= i < r@.len() ==> r@[i] < ssts@.len(),
{
    let ghost rs = range_view((*start, *end));
    let ghost keys = first_keys(ssts@);
    let mut out: Vec<usize> = Vec::new();
    let mut i: usize = 0;
    while i < ssts.len()
        invariant
            0 <= i <= ssts@.len(),
            rs == range_view((*start, *end)),
            keys == first_keys(ssts@),
            out@ == sort_by_first(overlapping(ssts@.take(i as int), rs.0, rs.1), keys),
            forall|j: int| 0 <= j < out@.len() ==> out@[j] < ssts@.len(),
        decreases ssts@.len() - i,
    {
        let ghost t = ssts@.take(i + 1);
        assert(t.drop_last() =~= ssts@.take(i as int));
        let ghost prev = overlapping(ssts@.take(i as int), rs.0, rs.1);
        if sst_overlaps_range(&ssts[i], start, end) {
            assert(overlapping(t, rs.0, rs.1) == prev.push(i));
            assert(overlapping(t, rs.0, rs.1).drop_last() =~= prev);
            insert_by_first(&mut out, ssts, i);
        } else {
            assert(overlapping(t, rs.0, rs.1) == prev);
        }
        i = i + 1;
    }
    assert(ssts@.take(ssts@.len() as int) =~= ssts@);
    out
}

/// The order in which output tables are listed: by first key, tables whose
/// first keys sort the same in the order they came.
pub fn order_by_first_key(ssts: &Vec<SstMeta>) -> (r: Vec<usize>)
    ensures
        r@ == sort_by_first(Seq::new(ssts@.len(), |i: int| i as usize), first_keys(ssts@)),
{
    let ghost all = Seq::new(ssts@.len(), |i: int| i as usize);
    let mut out: Vec<usize> = Vec::new();
    let mut i: usize = 0;
    while i < ssts.len()
        invariant
            0 <= i <= ssts@.len(),
            all == Seq::new(ssts@.len(), |i: int| i as usize),
            out@ == sort_by_first(all.take(i as int), first_keys(ssts@)),
            forall|j: int| 0 <= j < out@.len() ==> out@[j] < ssts@.len(),
        decreases ssts@.len() - i,
    {
        assert(all.take(i + 1).drop_last() =~= all.take(i as int));
        assert(all.take(i + 1).last() == i);
        insert_by_first(&mut out, ssts, i);
        i = i + 1;
    }
    assert(all.take(ssts@.len() as int) =~= all);
    out
}

fn is_strictly_ordered(ssts: &Vec<SstMeta>, order: &Vec<usize>) -> (r: bool)
    requires
        forall|i: int| 0 <= i < order@.len() ==> order@[i] < ssts@.len(),
    ensures
        r == strictly_ordered(ssts@, order@),
{
    if order.len() < 2 {
        return true;
    }
    let mut i: usize = 0;
    while i < order.len() - 1
        invariant
            0 <= i < order@.len(),
            forall|j: int| 0 <= j < order@.len() ==> order@[j] < ssts@.len(),
            forall|j: int|
                0 <= j < i ==> key_less(
                    #[trigger] ssts@[order@[j] as int].last_key@,
                    ssts@[order@[j + 1] as int].first_key@,
                ),
        decreases order@.len() - i,
    {
        if !key_lt(&ssts[order[i]].last_key, &ssts[order[i + 1]].first_key) {
            return false;
        }
        i = i + 1;
    }
    true
}

fn copy_key_option(k: &Option<KeyBytes>) -> (r: Option<KeyBytes>)
    ensures
        range_view((r, None)).0 == range_view((*k, None)).0,
{
    match k {
        Some(c) => Some(c.clone_key()),
        None => None,
    }
}

/// Plans the sub-compactions of merging `upper` into `lower`: `None` when
/// the key space is not worth splitting (a single range), otherwise one
/// plan per range, in key order.
pub fn plan_subcompactions(upper: &Vec<SstMeta>, lower: &Vec<SstMeta>, num_subcompactions: usize) -> (r:
    Option<Vec<SubcompactionPlan>>)
    ensures
        ({
            let b = spec_boundaries(upper@ + lower@, num_subcompactions as nat);
            match r {
                None => b.len() <= 1,
                Some(plans) => b.len() > 1 && plans@.len() == b.len() && forall|i: int|
                    0 <= i < b.len() ==> plan_matches(#[trigger] plans@[i], b[i], upper@, lower@),
            }
        }),
{
    let mut anchors: Vec<KeyBytes> = Vec::new();
    collect_anchors(upper, &mut anchors);
    collect_anchors(lower, &mut anchors);
    proof {
        lemma_anchor_points_concat(upper@, lower@);
        assert(keys_view(anchors@) =~= anchor_points(upper@ + lower@));
    }
    let has_tables = upper.len() > 0 || lower.len() > 0;
    let boundaries = boundaries_from_anchors(anchors, has_tables, num_subcompactions);
    let ghost b = spec_boundaries(upper@ + lower@, num_subcompactions as nat);
    assert(ranges_view(boundaries@) == b);
    assert(boundaries@.len() == b.len());
    if boundaries.len() <= 1 {
        return None;
    }
    let mut plans: Vec<SubcompactionPlan> = Vec::new();
    let mut i: usize = 0;
    while i < boundaries.len()
        invariant
            0 <= i <= boundaries@.len(),
            ranges_view(boundaries@) == b,
            boundaries@.len() == b.len(),
            plans@.len() == i,
            forall|j: int| 0 <= j < i ==> plan_matches(#[trigger] plans@[j], b[j], upper@, lower@),
        decreases boundaries@.len() - i,
    {
        let (start, end) = (&boundaries[i].0, &boundaries[i].1);
        assert(range_view(boundaries@[i as int]) == b[i as int]);
        let up = overlapping_sorted(upper, start, end);
        let low = overlapping_sorted(lower, start, end);
        let ordered = is_strictly_ordered(upper, &up);
        let plan = SubcompactionPlan {
            start: copy_key_option(start),
            end: copy_key_option(end),
            upper: up,
            lower: low,
            upper_is_ordered: ordered,
        };
        plans.push(plan);
        i = i + 1;
    }
    Some(plans)
}

/// Whether keys come in key order.
pub open spec fn keys_sorted(s: Seq<KeyView>) -> bool {
    forall|i: int, j: int| 0 <= i < j < s.len() ==> !key_greater(#[trigger] s[i], #[trigger] s[j])
}

proof fn lemma_insert_pos(s: Seq<KeyView>, x: KeyView)
    ensures
        insert_pos(s, x) <= s.len(),
        forall|j: int| insert_pos(s, x) <= j < s.len() ==> key_greater(#[trigger] s[j], x),
        insert_pos(s, x) > 0 ==> !key_greater(s[insert_pos(s, x) - 1], x),
    decreases s.len(),
{
    if s.len() > 0 && key_greater(s.last(), x) {
        lemma_insert_pos(s.drop_last(), x);
        assert forall|j: int| insert_pos(s, x) <= j < s.len() implies key_greater(#[trigger] s[j], x) by {
            if j < s.len() - 1 {
                assert(s[j] == s.drop_last()[j]);
            }
        }
        if insert_pos(s, x) > 0 {
            assert(s[insert_pos(s, x) - 1] == s.drop_last()[insert_pos(s, x) - 1]);
        }
    }
}

proof fn lemma_insert_keeps_sorted(s: Seq<KeyView>, x: KeyView)
    requires
        keys_sorted(s),
    ensures
        keys_sorted(s.insert(insert_pos(s, x) as int, x)),
{
    lemma_insert_pos(s, x);
    let p = insert_pos(s, x) as int;
    let t = s.insert(p, x);
    assert forall|i: int, j: int| 0 <= i < j < t.len() implies !key_greater(#[trigger] t[i], #[trigger] t[j]) by {
        if j < p {
            assert(t[i] == s[i] && t[j] == s[j]);
        } else if j == p {
            assert(t[i] == s[i]);
            if i < p - 1 {
                lemma_key_order_total(s[i], s[p - 1], x);
            }
        } else if i < p {
            assert(t[i] == s[i] && t[j] == s[j - 1]);
        } else if i == p {
            assert(t[j] == s[j - 1]);
            lemma_key_order_total(s[j - 1], x, x);
            lemma_key_order_total(x, s[j - 1], x);
        } else {
            assert(t[i] == s[i - 1] && t[j] == s[j - 1]);
        }
    }
}

proof fn lemma_sort_keys_sorted(s: Seq<KeyView>)
    ensures
        keys_sorted(sort_keys(s)),
        sort_keys(s).len() == s.len(),
        forall|i: int| 0 <= i < sort_keys(s).len() ==> s.contains(#[trigger] sort_keys(s)[i]),
    decreases s.len(),
{
    if s.len() > 0 {
        let p = s.drop_last();
        lemma_sort_keys_sorted(p);
        let sorted = sort_keys(p);
        lemma_insert_keeps_sorted(sorted, s.last());
        lemma_insert_pos(sorted, s.last());
        let k = insert_pos(sorted, s.last()) as int;
        let t = sort_keys(s);
        assert forall|i: int| 0 <= i < t.len() implies s.contains(#[trigger] t[i]) by {
            if i < k {
                assert(t[i] == sorted[i]);
                let j = choose|j: int| 0 <= j < p.len() && p[j] == sorted[i];
                assert(s[j] == p[j]);
            } else if i == k {
                assert(s[s.len() - 1] == t[i]);
            } else {
                assert(t[i] == sorted[i - 1]);
                let j = choose|j: int| 0 <= j < p.len() && p[j] == sorted[i - 1];
                assert(s[j] == p[j]);
            }
        }
    }
}

proof fn lemma_dedup_keeps_sorted(s: Seq<KeyView>)
    requires
        keys_sorted(s),
    ensures
        keys_sorted(dedup_keys(s)),
        forall|i: int| 0 <= i < dedup_keys(s).len() ==> s.contains(#[trigger] dedup_keys(s)[i]),
    decreases s.len(),
{
    if s.len() > 1 {
        let p = s.drop_last();
        assert(keys_sorted(p)) by {
            assert forall|i: int, j: int| 0 <= i < j < p.len() implies !key_greater(#[trigger] p[i], #[trigger] p[j]) by {
                assert(p[i] == s[i] && p[j] == s[j]);
            }
        }
        lemma_dedup_keeps_sorted(p);
        let d = dedup_keys(p);
        assert forall|i: int| 0 <= i < d.len() implies s.contains(#[trigger] d[i]) && !key_greater(d[i], s.last()) by {
            let j = choose|j: int| 0 <= j < p.len() && p[j] == d[i];
            assert(s[j] == p[j]);
            assert(s[s.len() - 1] == s.last());
        }
        if s.last() != s[s.len() - 2] {
            let t = d.push(s.last());
            assert forall|i: int, j: int| 0 <= i < j < t.len() implies !key_greater(#[trigger] t[i], #[trigger] t[j]) by {
                if j < d.len() {
                    assert(t[i] == d[i] && t[j] == d[j]);
                } else {
                    assert(t[i] == d[i]);
                }
            }
            assert forall|i: int| 0 <= i < t.len() implies s.contains(#[trigger] t[i]) by {
                if i < d.len() {
                    assert(t[i] == d[i]);
                } else {
                    assert(s[s.len() - 1] == t[i]);
                }
            }
        }
    }
}

/// The points a split is cut at come in key order: each range starts no
/// later than it ends.
pub proof fn lemma_split_points_sorted(ssts: Seq<SstMeta>)
    ensures
        keys_sorted(dedup_keys(sort_keys(anchor_points(ssts)))),
{
    lemma_sort_keys_sorted(anchor_points(ssts));
    lemma_dedup_keeps_sorted(sort_keys(anchor_points(ssts)));
}

} // verus!
