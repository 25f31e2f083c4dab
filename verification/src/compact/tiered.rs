//! Tiered compaction (universal compaction): every flush adds a tier, and
//! tiers are merged when space amplification, the size ratio between tiers,
//! or the number of tiers grows too large.
use vstd::prelude::*;
use std::collections::HashMap;
use crate::lsm_storage::{LsmStorageState, levels_view, copy_ids, copy_levels_prefix};

verus! {

broadcast use vstd::std_specs::hash::group_hash_axioms;

#[derive(Debug)]
pub struct TieredCompactionTask {
    pub tiers: Vec<(usize, Vec<usize>)>,
    pub bottom_tier_included: bool,
}

/// A tiered task as plain values: the tiers to merge and whether the
/// bottom tier is among them.
pub struct TieredTaskView {
    pub tiers: Seq<(usize, Seq<usize>)>,
    pub bottom_tier_included: bool,
}

impl View for TieredCompactionTask {
    type V = TieredTaskView;

    open spec fn view(&self) -> TieredTaskView {
        TieredTaskView { tiers: levels_view(self.tiers@), bottom_tier_included: self.bottom_tier_included }
    }
}

#[derive(Debug, Clone, Copy)]
pub struct TieredCompactionOptions {
    /// The number of tiers below which no compaction is triggered.
    pub num_tiers: usize,
    /// The largest tolerated space amplification, in percent.
    pub max_size_amplification_percent: usize,
    /// How much larger than all tiers above it a tier may grow, in percent
    /// beyond 100, before they are merged.
    pub size_ratio: usize,
    /// The fewest tiers a size-ratio compaction merges.
    pub min_merge_width: usize,
    /// The most tiers a compaction that reduces sorted runs merges.
    pub max_merge_width: Option<usize>,
}

pub struct TieredCompactionController {
    options: TieredCompactionOptions,
}

/// The number of tables in the first `k` tiers.
pub open spec fn tiers_size(levels: Seq<(usize, Seq<usize>)>, k: int) -> nat
    decreases k,
{
    if k <= 0 {
        0
    } else {
        tiers_size(levels, k - 1) + levels[k - 1].1.len()
    }
}

/// Whether the tables above the bottom tier, `upper`, reach the tolerated
/// share of the bottom tier's tables, `bottom`: `upper / bottom >= percent / 100`
/// (an infinite ratio when the bottom tier is empty and the upper tiers are not).
pub open spec fn space_amplification_triggers(upper: nat, bottom: nat, percent: nat) -> bool {
    if bottom == 0 {
        upper > 0
    } else {
        upper * 100 >= percent * bottom
    }
}

/// Whether tier `id + 1` is more than `(100 + size_ratio)%` of the tiers
/// above it together (an infinite ratio when those are empty and it is not),
/// with enough tiers above it to merge.
pub open spec fn size_ratio_triggers(
    o: TieredCompactionOptions,
    levels: Seq<(usize, Seq<usize>)>,
    id: int,
) -> bool {
    &&& levels[id + 1].1.len() * 100 > (100 + o.size_ratio) * tiers_size(levels, id + 1)
    &&& id + 1 >= o.min_merge_width
}

/// The first tier, from `id` on, whose successor triggers a size-ratio
/// compaction.
pub open spec fn first_size_ratio_trigger(
    o: TieredCompactionOptions,
    levels: Seq<(usize, Seq<usize>)>,
    id: int,
) -> Option<int>
    decreases levels.len() - 1 - id,
{
    if id >= levels.len() - 1 || id < 0 {
        None
    } else if size_ratio_triggers(o, levels, id) {
        Some(id)
    } else {
        first_size_ratio_trigger(o, levels, id + 1)
    }
}

/// The first size-ratio trigger from `start` on is a tier at or after
/// `start`, not the last, whose successor triggers: it has at least
/// `min_merge_width - 1` tiers above it.
proof fn lemma_first_trigger_found(o: TieredCompactionOptions, levels: Seq<(usize, Seq<usize>)>, start: int)
    requires
        0 <= start,
    ensures
        forall|id: int|
            first_size_ratio_trigger(o, levels, start) == Some(id) ==> (start <= id < levels.len() - 1
                && id + 1 >= o.min_merge_width && levels[id + 1].1.len() * 100 > (100 + o.size_ratio)
                * tiers_size(levels, id + 1)),
    decreases levels.len() - 1 - start,
{
    if start < levels.len() - 1 && !size_ratio_triggers(o, levels, start) {
        lemma_first_trigger_found(o, levels, start + 1);
    }
}

/// A tiered task that leaves the bottom tier alone merges at least
/// `min_merge_width` tiers, all from the top, and the tier right below them
/// holds more than `(100 + size_ratio)%` of their tables.
pub proof fn lemma_partial_task_wide_enough(o: TieredCompactionOptions, levels: Seq<(usize, Seq<usize>)>)
    ensures
        forall|t: TieredTaskView|
            spec_tiered_task(o, levels) == Some(t) && !t.bottom_tier_included ==> {
            &&& t.tiers.len() >= o.min_merge_width
            &&& t.tiers.len() < levels.len()
            &&& t.tiers == levels.take(t.tiers.len() as int)
            &&& levels[t.tiers.len() as int].1.len() * 100 > (100 + o.size_ratio) * tiers_size(
                levels,
                t.tiers.len() as int,
            )
        },
{
    lemma_first_trigger_found(o, levels, 0);
}

/// The most tiers a compaction that reduces sorted runs merges.
pub open spec fn max_width(o: TieredCompactionOptions) -> nat {
    match o.max_merge_width {
        Some(w) => w as nat,
        None => usize::MAX as nat,
    }
}

/// The tiered task to run, if any: none below `num_tiers` tiers; all tiers
/// when space amplification triggers; the tiers above the first that
/// triggers on size ratio; otherwise the first tiers, as many as the widest
/// merge allows.
pub open spec fn spec_tiered_task(
    o: TieredCompactionOptions,
    levels: Seq<(usize, Seq<usize>)>,
) -> Option<TieredTaskView> {
    let n = levels.len();
    if n < o.num_tiers {
        None
    } else if space_amplification_triggers(
        tiers_size(levels, n - 1),
        levels[n - 1].1.len(),
        o.max_size_amplification_percent as nat,
    ) {
        Some(TieredTaskView { tiers: levels, bottom_tier_included: true })
    } else {
        match first_size_ratio_trigger(o, levels, 0) {
            Some(id) => Some(TieredTaskView { tiers: levels.take(id + 1), bottom_tier_included: false }),
            None => {
                let k = if n <= max_width(o) { n } else { max_width(o) };
                Some(TieredTaskView { tiers: levels.take(k as int), bottom_tier_included: n >= k })
            },
        }
    }
}

/// Where applying a tiered task stands after some tiers: which task tiers
/// are still to be removed, the tiers kept so far, the tables removed so far,
/// and whether the merged tier has been placed.
pub struct ApplyState {
    pub remaining: Map<usize, Seq<usize>>,
    pub levels: Seq<(usize, Seq<usize>)>,
    pub removed: Seq<usize>,
    pub added: bool,
}

/// The task's tiers by id; a later tier with the same id replaces an earlier.
pub open spec fn task_map(tiers: Seq<(usize, Seq<usize>)>) -> Map<usize, Seq<usize>>
    decreases tiers.len(),
{
    if tiers.len() == 0 {
        Map::empty()
    } else {
        task_map(tiers.drop_last()).insert(tiers.last().0, tiers.last().1)
    }
}

/// Applying a tiered task to the first `k` tiers: a tier the task names is
/// removed with its tables, any other is kept; the merged tier, named by the
/// first output table, is placed as soon as every task tier is removed.
pub open spec fn apply_prefix(
    task: Seq<(usize, Seq<usize>)>,
    output: Seq<usize>,
    levels: Seq<(usize, Seq<usize>)>,
    k: int,
) -> ApplyState
    decreases k,
{
    if k <= 0 {
        ApplyState { remaining: task_map(task), levels: Seq::empty(), removed: Seq::empty(), added: false }
    } else {
        let st = apply_prefix(task, output, levels, k - 1);
        let id = levels[k - 1].0;
        let files = levels[k - 1].1;
        let st1 = if st.remaining.contains_key(id) {
            ApplyState { remaining: st.remaining.remove(id), removed: st.removed + files, ..st }
        } else {
            ApplyState { levels: st.levels.push((id, files)), ..st }
        };
        if st1.remaining.is_empty() && !st1.added {
            ApplyState { levels: st1.levels.push((output[0], output)), added: true, ..st1 }
        } else {
            st1
        }
    }
}

/// Whether applying a task to the tiers runs without a fault: each task tier
/// met still holds the tables the task names for it, every task tier is met,
/// and there is an output table to name the merged tier by.
pub open spec fn apply_defined(
    task: Seq<(usize, Seq<usize>)>,
    output: Seq<usize>,
    levels: Seq<(usize, Seq<usize>)>,
) -> bool {
    &&& forall|k: int|
        0 <= k < levels.len() ==> {
            let st = #[trigger] apply_prefix(task, output, levels, k);
            st.remaining.contains_key(levels[k].0) ==> st.remaining[levels[k].0] == levels[k].1
        }
    &&& apply_prefix(task, output, levels, levels.len() as int).remaining.is_empty()
    &&& levels.len() > 0 ==> output.len() > 0
}

impl TieredCompactionController {
    pub fn new(options: TieredCompactionOptions) -> (r: Self)
        ensures
            r.options() == options,
    {
        Self { options }
    }

    pub closed spec fn options(&self) -> TieredCompactionOptions {
        self.options
    }

    /// Picks the tiers to merge, if a compaction is due.
    pub fn generate_compaction_task(&self, snapshot: &LsmStorageState) -> (r: Option<TieredCompactionTask>)
        requires
            snapshot.l0_sstables@.len() == 0,
            snapshot.levels@.len() > 0 || self.options().num_tiers > 0,
            tiers_size(levels_view(snapshot.levels@), snapshot.levels@.len() as int) <= usize::MAX,
        ensures
            match r {
                Some(t) => spec_tiered_task(self.options(), levels_view(snapshot.levels@)) == Some(t@),
                None => spec_tiered_task(self.options(), levels_view(snapshot.levels@)) is None,
            },
    {
        let ghost lv = levels_view(snapshot.levels@);
        let n = snapshot.levels.len();
        if n < self.options.num_tiers {
            return None;
        }
        proof {
            lemma_tiers_size_mono(lv, n - 1, n as int);
        }
        let mut size: usize = 0;
        let mut id: usize = 0;
        while id < n - 1
            invariant
                n == snapshot.levels@.len() >= 1,
                lv == levels_view(snapshot.levels@),
                0 <= id <= n - 1,
                size == tiers_size(lv, id as int),
                tiers_size(lv, n - 1) <= usize::MAX,
            decreases n - 1 - id,
        {
            proof {
                lemma_tiers_size_mono(lv, id + 1, n - 1);
            }
            size = size + snapshot.levels[id].1.len();
            id = id + 1;
        }
        let bottom = snapshot.levels[n - 1].1.len();
        if amplification_exceeded(size, bottom, self.options.max_size_amplification_percent) {
            let tiers = copy_levels_prefix(&snapshot.levels, n);
            proof {
                assert(lv.take(n as int) =~= lv);
            }
            return Some(TieredCompactionTask { tiers, bottom_tier_included: true });
        }
        let mut size: usize = 0;
        let mut id: usize = 0;
        while id < n - 1
            invariant
                n == snapshot.levels@.len() >= 1,
                lv == levels_view(snapshot.levels@),
                0 <= id <= n - 1,
                size == tiers_size(lv, id as int),
                tiers_size(lv, n - 1) <= usize::MAX,
                n >= self.options().num_tiers,
                !space_amplification_triggers(
                    tiers_size(lv, n - 1),
                    lv[n - 1].1.len(),
                    self.options().max_size_amplification_percent as nat,
                ),
                first_size_ratio_trigger(self.options(), lv, 0) == first_size_ratio_trigger(
                    self.options(),
                    lv,
                    id as int,
                ),
            decreases n - 1 - id,
        {
            proof {
                lemma_tiers_size_mono(lv, id + 1, n - 1);
            }
            size = size + snapshot.levels[id].1.len();
            let next_level_size = snapshot.levels[id + 1].1.len();
            assert(size == tiers_size(lv, id + 1));
            assert(next_level_size == lv[id + 1].1.len());
            if ratio_exceeded(next_level_size, size, self.options.size_ratio) && id + 1
                >= self.options.min_merge_width {
                let tiers = copy_levels_prefix(&snapshot.levels, id + 1);
                return Some(TieredCompactionTask { tiers, bottom_tier_included: false });
            }
            id = id + 1;
        }
        let num_tiers_to_take = match self.options.max_merge_width {
            Some(w) => if n <= w {
                n
            } else {
                w
            },
            None => n,
        };
        let tiers = copy_levels_prefix(&snapshot.levels, num_tiers_to_take);
        Some(TieredCompactionTask { tiers, bottom_tier_included: n >= num_tiers_to_take })
    }

    /// Replaces the merged tiers by one tier of the output tables, named by
    /// the first of them and placed where the last merged tier stood, and
    /// returns the new state with the tables that were merged away.
    pub fn apply_compaction_result(
        &self,
        snapshot: &LsmStorageState,
        task: &TieredCompactionTask,
        output: &[usize],
    ) -> (r: (LsmStorageState, Vec<usize>))
        requires
            snapshot.l0_sstables@.len() == 0,
            apply_defined(task@.tiers, output@, levels_view(snapshot.levels@)),
        ensures
            r.0.l0_sstables@.len() == 0,
            levels_view(r.0.levels@) == apply_prefix(
                task@.tiers,
                output@,
                levels_view(snapshot.levels@),
                snapshot.levels@.len() as int,
            ).levels,
            r.1@ == apply_prefix(
                task@.tiers,
                output@,
                levels_view(snapshot.levels@),
                snapshot.levels@.len() as int,
            ).removed,
    {
        let ghost tv = task@.tiers;
        let ghost lv = levels_view(snapshot.levels@);
        let mut tier_to_remove: HashMap<usize, Vec<usize>> = HashMap::new();
        let mut j: usize = 0;
        while j < task.tiers.len()
            invariant
                0 <= j <= task.tiers@.len(),
                tv == task@.tiers,
                ids_map_matches(tier_to_remove@, task_map(tv.take(j as int))),
            decreases task.tiers@.len() - j,
        {
            let ghost before = tier_to_remove@;
            tier_to_remove.insert(task.tiers[j].0, copy_ids(&task.tiers[j].1));
            proof {
                assert(tv.take(j + 1).drop_last() =~= tv.take(j as int));
            }
            j = j + 1;
        }
        proof {
            assert(tv.take(tv.len() as int) =~= tv);
        }
        let n = snapshot.levels.len();
        let mut levels: Vec<(usize, Vec<usize>)> = Vec::new();
        let mut new_tier_added = false;
        let mut files_to_remove: Vec<usize> = Vec::new();
        let mut i: usize = 0;
        while i < n
            invariant
                0 <= i <= n == snapshot.levels@.len(),
                lv == levels_view(snapshot.levels@),
                tv == task@.tiers,
                apply_defined(tv, output@, lv),
                ids_map_matches(tier_to_remove@, apply_prefix(tv, output@, lv, i as int).remaining),
                levels_view(levels@) == apply_prefix(tv, output@, lv, i as int).levels,
                files_to_remove@ == apply_prefix(tv, output@, lv, i as int).removed,
                new_tier_added == apply_prefix(tv, output@, lv, i as int).added,
            decreases n - i,
        {
            let ghost st = apply_prefix(tv, output@, lv, i as int);
            let tier_id = snapshot.levels[i].0;
            assert(tier_id == lv[i as int].0);
            let ghost before = tier_to_remove@;
            let removed_tier = tier_to_remove.remove(&tier_id);
            proof {
                assert(tier_to_remove@ == before.remove(tier_id));
                lemma_ids_map_matches_remove(before, st.remaining, tier_id);
                if !st.remaining.contains_key(tier_id) {
                    assert(st.remaining.remove(tier_id) =~= st.remaining);
                }
            }
            match removed_tier {
                Some(m_files) => {
                    let mut m_files = m_files;
                    files_to_remove.append(&mut m_files);
                },
                None => {
                    let ghost old_levels = levels@;
                    levels.push((tier_id, copy_ids(&snapshot.levels[i].1)));
                    proof {
                        lemma_levels_view_push(old_levels, levels@);
                    }
                },
            }
            if tier_to_remove.is_empty() && !new_tier_added {
                new_tier_added = true;
                let ghost old_levels = levels@;
                levels.push((output[0], vstd::slice::slice_to_vec(output)));
                proof {
                    lemma_levels_view_push(old_levels, levels@);
                }
            }
            i = i + 1;
        }
        let state = LsmStorageState { l0_sstables: Vec::new(), levels };
        (state, files_to_remove)
    }
}

/// Whether `upper` tables above a bottom tier of `bottom` tables reach
/// `percent` percent of it.
fn amplification_exceeded(upper: usize, bottom: usize, percent: usize) -> (r: bool)
    ensures
        r == space_amplification_triggers(upper as nat, bottom as nat, percent as nat),
{
    if bottom == 0 {
        upper > 0
    } else {
        proof {
            lemma_product_fits(percent as nat, bottom as nat);
        }
        (upper as u128) * 100 >= (percent as u128) * (bottom as u128)
    }
}

/// Whether a tier of `next` tables exceeds `100 + ratio` percent of the
/// `size` tables above it.
fn ratio_exceeded(next: usize, size: usize, ratio: usize) -> (r: bool)
    ensures
        r == (next * 100 > (100 + ratio) * size),
{
    proof {
        assert((100 + ratio) * size == 100 * size + ratio * size) by (nonlinear_arith);
    }
    if next <= size {
        proof {
            assert(ratio * size >= 0) by (nonlinear_arith)
                requires
                    ratio >= 0,
                    size >= 0,
            ;
        }
        false
    } else {
        proof {
            lemma_product_fits(ratio as nat, size as nat);
            assert((next - size) * 100 == next * 100 - size * 100) by (nonlinear_arith);
        }
        ((next - size) as u128) * 100 > (ratio as u128) * (size as u128)
    }
}

proof fn lemma_product_fits(a: nat, b: nat)
    requires
        a <= usize::MAX,
        b <= usize::MAX,
    ensures
        a * b <= u128::MAX,
{
    assert(a * b <= 0xffff_ffff_ffff_ffff * 0xffff_ffff_ffff_ffffnat) by (nonlinear_arith)
        requires
            a <= 0xffff_ffff_ffff_ffffnat,
            b <= 0xffff_ffff_ffff_ffffnat,
    ;
}

/// Whether a map of table-id lists holds, for each tier id, the ids that
/// `m` holds for it.
pub open spec fn ids_map_matches(hm: Map<usize, Vec<usize>>, m: Map<usize, Seq<usize>>) -> bool {
    &&& hm.dom() == m.dom()
    &&& forall|id: usize| #[trigger] hm.contains_key(id) ==> hm[id]@ == m[id]
}

/// Whether no two tiers share an id.
pub open spec fn tier_ids_distinct(levels: Seq<(usize, Seq<usize>)>) -> bool {
    forall|i: int, j: int| 0 <= i < j < levels.len() ==> #[trigger] levels[i].0 != #[trigger] levels[j].0
}

/// The tables of the given tiers, tier after tier.
pub open spec fn tables_of(tiers: Seq<(usize, Seq<usize>)>) -> Seq<usize>
    decreases tiers.len(),
{
    if tiers.len() == 0 {
        Seq::empty()
    } else {
        tables_of(tiers.drop_last()) + tiers.last().1
    }
}

proof fn lemma_task_map_entries(s: Seq<(usize, Seq<usize>)>)
    requires
        tier_ids_distinct(s),
    ensures
        forall|j: int| 0 <= j < s.len() ==> #[trigger] task_map(s).contains_key(s[j].0) && task_map(s)[s[j].0] == s[j].1,
        forall|id: usize| #[trigger] task_map(s).contains_key(id) ==> exists|j: int| 0 <= j < s.len() && s[j].0 == id,
    decreases s.len(),
{
    if s.len() > 0 {
        let p = s.drop_last();
        assert(tier_ids_distinct(p));
        lemma_task_map_entries(p);
        assert forall|id: usize| #[trigger] task_map(s).contains_key(id) implies exists|j: int| 0 <= j < s.len() && s[j].0 == id by {
            if id != s.last().0 {
                assert(task_map(p).contains_key(id));
                let j = choose|j: int| 0 <= j < p.len() && p[j].0 == id;
                assert(s[j].0 == id);
            } else {
                assert(s[s.len() - 1].0 == id);
            }
        }
        assert forall|j: int| 0 <= j < s.len() implies #[trigger] task_map(s).contains_key(s[j].0) && task_map(s)[s[j].0] == s[j].1 by {
            if j < s.len() - 1 {
                assert(p[j] == s[j]);
                assert(task_map(p).contains_key(p[j].0));
                assert(s[j].0 != s[s.len() - 1].0);
            }
        }
    }
}

/// Removing the first tier's id from the map of a tier list with distinct
/// ids leaves the map of the remaining tiers.
proof fn lemma_task_map_drop_first(s: Seq<(usize, Seq<usize>)>)
    requires
        tier_ids_distinct(s),
        s.len() > 0,
    ensures
        task_map(s).remove(s[0].0) == task_map(s.drop_first()),
{
    let t = s.drop_first();
    assert(tier_ids_distinct(t));
    lemma_task_map_entries(s);
    lemma_task_map_entries(t);
    assert forall|id: usize| #[trigger] task_map(t).contains_key(id) implies task_map(s).remove(s[0].0).contains_key(id) by {
        let j = choose|j: int| 0 <= j < t.len() && t[j].0 == id;
        assert(s[j + 1].0 == id);
        assert(s[0].0 != s[j + 1].0);
    }
    assert forall|id: usize| #[trigger] task_map(s).remove(s[0].0).contains_key(id) implies task_map(t).contains_key(id) by {
        let j = choose|j: int| 0 <= j < s.len() && s[j].0 == id;
        assert(j != 0);
        assert(t[j - 1] == s[j]);
    }
    assert forall|id: usize| #[trigger] task_map(t).contains_key(id) implies task_map(s).remove(s[0].0)[id] == task_map(t)[id] by {
        let j = choose|j: int| 0 <= j < t.len() && t[j].0 == id;
        assert(t[j] == s[j + 1]);
    }
    assert(task_map(s).remove(s[0].0) =~= task_map(t));
}

proof fn lemma_first_trigger_bounds(
    o: TieredCompactionOptions,
    levels: Seq<(usize, Seq<usize>)>,
    id: int,
)
    ensures
        first_size_ratio_trigger(o, levels, id) matches Some(t) ==> id <= t < levels.len() - 1 && 0 <= t,
    decreases levels.len() - 1 - id,
{
    if !(id >= levels.len() - 1 || id < 0) && !size_ratio_triggers(o, levels, id) {
        lemma_first_trigger_bounds(o, levels, id + 1);
    }
}

/// The tiers of a generated task are the first tiers of the state.
proof fn lemma_tiered_task_is_prefix(o: TieredCompactionOptions, levels: Seq<(usize, Seq<usize>)>)
    requires
        spec_tiered_task(o, levels) is Some,
    ensures
        spec_tiered_task(o, levels)->0.tiers.len() <= levels.len(),
        spec_tiered_task(o, levels)->0.tiers == levels.take(spec_tiered_task(o, levels)->0.tiers.len() as int),
{
    lemma_first_trigger_bounds(o, levels, 0);
    assert(levels.take(levels.len() as int) =~= levels);
}

/// How applying a task made of the first `k` tiers goes after `i` tiers.
proof fn lemma_apply_prefix_steps(
    levels: Seq<(usize, Seq<usize>)>,
    k: int,
    output: Seq<usize>,
    i: int,
)
    requires
        tier_ids_distinct(levels),
        1 <= k <= levels.len(),
        0 <= i <= levels.len(),
    ensures
        ({
            let st = apply_prefix(levels.take(k), output, levels, i);
            if i < k {
                &&& st.remaining == task_map(levels.subrange(i, k))
                &&& st.levels == Seq::<(usize, Seq<usize>)>::empty()
                &&& st.removed == tables_of(levels.take(i))
                &&& !st.added
            } else {
                &&& st.remaining == Map::<usize, Seq<usize>>::empty()
                &&& st.levels == seq![(output[0], output)] + levels.subrange(k, i)
                &&& st.removed == tables_of(levels.take(k))
                &&& st.added
            }
        }),
    decreases i,
{
    let task = levels.take(k);
    if i == 0 {
        assert(levels.subrange(0, k) =~= task);
        assert(levels.take(0) =~= Seq::<(usize, Seq<usize>)>::empty());
    } else {
        lemma_apply_prefix_steps(levels, k, output, i - 1);
        let st = apply_prefix(task, output, levels, i - 1);
        let id = levels[i - 1].0;
        if i - 1 < k {
            let sub = levels.subrange(i - 1, k);
            assert(tier_ids_distinct(sub));
            lemma_task_map_entries(sub);
            assert(sub[0] == levels[i - 1]);
            assert(st.remaining.contains_key(id));
            lemma_task_map_drop_first(sub);
            assert(sub.drop_first() =~= levels.subrange(i, k));
            assert(levels.take(i).drop_last() =~= levels.take(i - 1));
            if i == k {
                let rest = levels.subrange(i, k);
                assert(rest.len() == 0);
                assert(task_map(rest) =~= Map::<usize, Seq<usize>>::empty());
                assert(levels.subrange(k, i) =~= Seq::<(usize, Seq<usize>)>::empty());
                assert(seq![(output[0], output)] + levels.subrange(k, i) =~= seq![(output[0], output)]);
            } else {
                let rest = levels.subrange(i, k);
                lemma_task_map_entries(rest);
                assert(rest.len() > 0);
                assert(task_map(rest).contains_key(rest[0].0));
            }
        } else {
            assert(levels.subrange(k, i) =~= levels.subrange(k, i - 1).push(levels[i - 1]));
        }
    }
}

/// Applying a task that tiered compaction generated, with at least one tier
/// and a non-empty output, to the state it was generated from, on tiers with
/// distinct ids: the merged tiers, a prefix of the state, give way to one
/// tier of the output tables named by the first of them, the other tiers
/// stay in order, and the tables of the merged tiers are the ones removed.
pub proof fn lemma_apply_generated_task(
    o: TieredCompactionOptions,
    levels: Seq<(usize, Seq<usize>)>,
    output: Seq<usize>,
)
    requires
        tier_ids_distinct(levels),
        output.len() > 0,
        spec_tiered_task(o, levels) is Some,
        spec_tiered_task(o, levels)->0.tiers.len() > 0,
    ensures
        ({
            let tiers = spec_tiered_task(o, levels)->0.tiers;
            let st = apply_prefix(tiers, output, levels, levels.len() as int);
            &&& apply_defined(tiers, output, levels)
            &&& st.levels == seq![(output[0], output)] + levels.skip(tiers.len() as int)
            &&& st.removed == tables_of(tiers)
        }),
{
    let tiers = spec_tiered_task(o, levels)->0.tiers;
    let k = tiers.len() as int;
    lemma_tiered_task_is_prefix(o, levels);
    assert forall|i: int| 0 <= i < levels.len() implies {
        let st = #[trigger] apply_prefix(tiers, output, levels, i);
        st.remaining.contains_key(levels[i].0) ==> st.remaining[levels[i].0] == levels[i].1
    } by {
        lemma_apply_prefix_steps(levels, k, output, i);
        if i < k {
            let sub = levels.subrange(i, k);
            assert(tier_ids_distinct(sub));
            lemma_task_map_entries(sub);
            assert(sub[0] == levels[i]);
        }
    }
    lemma_apply_prefix_steps(levels, k, output, levels.len() as int);
    assert(levels.subrange(k, levels.len() as int) =~= levels.skip(k));
}

proof fn lemma_ids_map_matches_remove(hm: Map<usize, Vec<usize>>, m: Map<usize, Seq<usize>>, id: usize)
    requires
        ids_map_matches(hm, m),
    ensures
        ids_map_matches(hm.remove(id), m.remove(id)),
{
    assert(hm.remove(id).dom() =~= m.remove(id).dom());
}

proof fn lemma_levels_view_push(a: Seq<(usize, Vec<usize>)>, b: Seq<(usize, Vec<usize>)>)
    requires
        b == a.push(b.last()),
    ensures
        levels_view(b) == levels_view(a).push((b.last().0, b.last().1@)),
{
    assert(levels_view(b) =~= levels_view(a).push((b.last().0, b.last().1@))) by {
        assert forall|j: int| 0 <= j < a.len() implies levels_view(b)[j] == levels_view(a)[j] by {
            assert(b[j] == a[j]);
        }
    }
}

proof fn lemma_tiers_size_mono(levels: Seq<(usize, Seq<usize>)>, a: int, b: int)
    requires
        0 <= a <= b,
    ensures
        tiers_size(levels, a) <= tiers_size(levels, b),
    decreases b - a,
{
    if a < b {
        lemma_tiers_size_mono(levels, a, b - 1);
    }
}

} // verus!
