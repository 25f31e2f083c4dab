//! Compaction: the tasks that merge tables, the controllers that pick them,
//! and the bookkeeping around running them.
use vstd::prelude::*;

pub mod tiered;
pub mod filter;
pub mod subcompaction;

use std::collections::HashSet;
use crate::lsm_storage::{LsmStorageState, SstMeta, levels_view, copy_ids, copy_levels};
use crate::key::{KeyView, key_lt, key_gt};
use crate::key_order::{key_less, key_greater};
use crate::error::LsmError;
use crate::text::append_text;
use tiered::{
    TieredCompactionController, TieredCompactionOptions, TieredCompactionTask,
    spec_tiered_task, apply_prefix, apply_defined, tiers_size,
};

verus! {

broadcast use vstd::std_specs::hash::group_hash_axioms;

/// Whether a leveled task merges tables or only moves one table down.
#[derive(Debug, Clone, Copy, PartialEq, Eq, Structural)]
pub enum LeveledTaskType {
    MergeTask,
    TrivialMoveTask,
}

/// A leveled task: tables of an upper level (level 0 when `upper_level` is
/// `None`) merged into the overlapping tables of a lower level.
pub struct LeveledCompactionTask {
    pub upper_level: Option<usize>,
    pub upper_level_sst_ids: Vec<usize>,
    pub lower_level: usize,
    pub lower_level_sst_ids: Vec<usize>,
    pub is_lower_level_bottom_level: bool,
    pub leveled_task_type: LeveledTaskType,
}

/// A simple-leveled task: a whole upper level (level 0 when `upper_level`
/// is `None`) merged into the level below it.
pub struct SimpleLeveledCompactionTask {
    pub upper_level: Option<usize>,
    pub upper_level_sst_ids: Vec<usize>,
    pub lower_level: usize,
    pub lower_level_sst_ids: Vec<usize>,
    pub is_lower_level_bottom_level: bool,
}

/// Options of leveled compaction.
#[derive(Debug, Clone, Copy)]
pub struct LeveledCompactionOptions {
    pub level_size_multiplier: usize,
    pub level0_file_num_compaction_trigger: usize,
    pub max_levels: usize,
    pub base_level_size_mb: usize,
}

/// Options of simple leveled compaction.
#[derive(Debug, Clone, Copy)]
pub struct SimpleLeveledCompactionOptions {
    pub size_ratio_percent: usize,
    pub level0_file_num_compaction_trigger: usize,
    pub max_levels: usize,
}

pub enum CompactionTask {
    Leveled(LeveledCompactionTask),
    Tiered(TieredCompactionTask),
    Simple(SimpleLeveledCompactionTask),
    ForceFullCompaction { l0_sstables: Vec<usize>, l1_sstables: Vec<usize> },
}

impl CompactionTask {
    /// Whether the task writes into the bottom level, where tombstones and
    /// expired records may be dropped.
    pub open spec fn spec_compact_to_bottom_level(&self) -> bool {
        match self {
            CompactionTask::ForceFullCompaction { .. } => true,
            CompactionTask::Leveled(task) => task.is_lower_level_bottom_level,
            CompactionTask::Simple(task) => task.is_lower_level_bottom_level,
            CompactionTask::Tiered(task) => task.bottom_tier_included,
        }
    }

    pub fn compact_to_bottom_level(&self) -> (r: bool)
        ensures
            r == self.spec_compact_to_bottom_level(),
    {
        match self {
            CompactionTask::ForceFullCompaction { .. } => true,
            CompactionTask::Leveled(task) => task.is_lower_level_bottom_level,
            CompactionTask::Simple(task) => task.is_lower_level_bottom_level,
            CompactionTask::Tiered(task) => task.bottom_tier_included,
        }
    }
}

/// How a store compacts.
#[derive(Debug, Clone, Copy)]
pub enum CompactionOptions {
    /// Leveled compaction with partial compaction and dynamic levels.
    Leveled(LeveledCompactionOptions),
    /// Tiered compaction.
    Tiered(TieredCompactionOptions),
    /// Simple leveled compaction.
    Simple(SimpleLeveledCompactionOptions),
    /// No compaction: every flush goes to level 0.
    NoCompaction,
}

/// The controller that picks and applies compaction tasks.
pub enum CompactionController {
    Tiered(TieredCompactionController),
    NoCompaction,
}

impl CompactionController {
    /// Asks the controller for the next task, if one is due.
    pub fn generate_compaction_task(&self, snapshot: &LsmStorageState) -> (r: Option<CompactionTask>)
        requires
            self matches CompactionController::Tiered(ctrl) ==> {
                &&& snapshot.l0_sstables@.len() == 0
                &&& snapshot.levels@.len() > 0 || ctrl.options().num_tiers > 0
                &&& tiers_size(levels_view(snapshot.levels@), snapshot.levels@.len() as int)
                    <= usize::MAX
            },
            !(self is NoCompaction),
        ensures
            match self {
                CompactionController::Tiered(ctrl) => match r {
                    Some(CompactionTask::Tiered(t)) => spec_tiered_task(
                        ctrl.options(),
                        levels_view(snapshot.levels@),
                    ) == Some(t@),
                    Some(_) => false,
                    None => spec_tiered_task(ctrl.options(), levels_view(snapshot.levels@)) is None,
                },
                CompactionController::NoCompaction => false,
            },
    {
        match self {
            CompactionController::Tiered(ctrl) => match ctrl.generate_compaction_task(snapshot) {
                Some(t) => Some(CompactionTask::Tiered(t)),
                None => None,
            },
            CompactionController::NoCompaction => vstd::pervasive::unreached(),
        }
    }

    /// Applies a finished task: the new state and the tables merged away.
    pub fn apply_compaction_result(
        &self,
        snapshot: &LsmStorageState,
        task: &CompactionTask,
        output: &[usize],
        in_recovery: bool,
    ) -> (r: (LsmStorageState, Vec<usize>))
        requires
            self is Tiered && task is Tiered,
            snapshot.l0_sstables@.len() == 0,
            task matches CompactionTask::Tiered(t) ==> apply_defined(
                t@.tiers,
                output@,
                levels_view(snapshot.levels@),
            ),
        ensures
            task matches CompactionTask::Tiered(t) ==> {
                let st = apply_prefix(
                    t@.tiers,
                    output@,
                    levels_view(snapshot.levels@),
                    snapshot.levels@.len() as int,
                );
                &&& r.0.l0_sstables@.len() == 0
                &&& levels_view(r.0.levels@) == st.levels
                &&& r.1@ == st.removed
            },
    {
        match (self, task) {
            (CompactionController::Tiered(ctrl), CompactionTask::Tiered(t)) => {
                ctrl.apply_compaction_result(snapshot, t, output)
            },
            _ => vstd::pervasive::unreached(),
        }
    }

    /// Whether flushed memtables go to level 0 (they become new tiers under
    /// tiered compaction).
    pub fn flush_to_l0(&self) -> (r: bool)
        ensures
            r == (self is NoCompaction),
    {
        match self {
            CompactionController::NoCompaction => true,
            CompactionController::Tiered(_) => false,
        }
    }
}

/// The levels a task works on, which no other task may work on at the same
/// time: the upper (level 0 when there is none) and lower level of a leveled
/// or simple task, the tier ids of a tiered task. A forced full compaction
/// is never run in the background and has none.
pub open spec fn spec_involved_levels(task: &CompactionTask) -> Option<Set<usize>> {
    match task {
        CompactionTask::Leveled(t) => Some(
            set![t.lower_level, match t.upper_level { Some(u) => u, None => 0 }],
        ),
        CompactionTask::Simple(t) => Some(
            set![t.lower_level, match t.upper_level { Some(u) => u, None => 0 }],
        ),
        CompactionTask::Tiered(t) => Some(t.tiers@.map_values(|p: (usize, Vec<usize>)| p.0).to_set()),
        CompactionTask::ForceFullCompaction { .. } => None,
    }
}

/// The levels a task works on, as a list (in any order, possibly with
/// repeats); `None` for a task that does not run in the background.
pub fn involved_levels(task: &CompactionTask) -> (r: Option<Vec<usize>>)
    ensures
        match (r, spec_involved_levels(task)) {
            (Some(v), Some(s)) => v@.to_set() == s,
            (None, None) => true,
            _ => false,
        },
{
    match task {
        CompactionTask::Leveled(t) => {
            let upper = match t.upper_level {
                Some(u) => u,
                None => 0,
            };
            let v = vec![t.lower_level, upper];
            proof {
                assert(v@ =~= seq![t.lower_level, upper]);
                lemma_pair_to_set(t.lower_level, upper);
            }
            Some(v)
        },
        CompactionTask::Simple(t) => {
            let upper = match t.upper_level {
                Some(u) => u,
                None => 0,
            };
            let v = vec![t.lower_level, upper];
            proof {
                assert(v@ =~= seq![t.lower_level, upper]);
                lemma_pair_to_set(t.lower_level, upper);
            }
            Some(v)
        },
        CompactionTask::Tiered(t) => {
            let mut v: Vec<usize> = Vec::new();
            let mut i: usize = 0;
            while i < t.tiers.len()
                invariant
                    0 <= i <= t.tiers@.len(),
                    v@ == t.tiers@.take(i as int).map_values(|p: (usize, Vec<usize>)| p.0),
                decreases t.tiers@.len() - i,
            {
                v.push(t.tiers[i].0);
                i = i + 1;
                assert(v@ =~= t.tiers@.take(i as int).map_values(|p: (usize, Vec<usize>)| p.0));
            }
            assert(t.tiers@.take(t.tiers@.len() as int) =~= t.tiers@);
            Some(v)
        },
        CompactionTask::ForceFullCompaction { .. } => None,
    }
}

proof fn lemma_pair_to_set(a: usize, b: usize)
    ensures
        seq![a, b].to_set() == set![a, b],
{
    let s = seq![a, b];
    assert forall|x: usize| s.to_set().contains(x) <==> set![a, b].contains(x) by {
        if x == a {
            assert(s[0] == x);
        }
        if x == b {
            assert(s[1] == x);
        }
    }
    assert(s.to_set() =~= set![a, b]);
}

/// Reserves the levels of a task against the levels of running tasks:
/// when none of them is taken they are all added and `true` comes back,
/// otherwise nothing changes and `false` comes back.
pub fn reserve_levels(running: &mut HashSet<usize>, involved: &Vec<usize>) -> (r: bool)
    ensures
        r == old(running)@.disjoint(involved@.to_set()),
        r ==> final(running)@ == old(running)@.union(involved@.to_set()),
        !r ==> final(running)@ == old(running)@,
{
    let mut i: usize = 0;
    while i < involved.len()
        invariant
            0 <= i <= involved@.len(),
            running@ == old(running)@,
            forall|j: int| 0 <= j < i ==> !running@.contains(#[trigger] involved@[j]),
        decreases involved@.len() - i,
    {
        if running.contains(&involved[i]) {
            proof {
                assert(involved@.to_set().contains(involved@[i as int]));
            }
            return false;
        }
        i = i + 1;
    }
    proof {
        assert forall|x: usize| #[trigger] involved@.to_set().contains(x) implies !old(running)@.contains(x) by {
            let j = choose|j: int| 0 <= j < involved@.len() && involved@[j] == x;
        }
    }
    let mut i: usize = 0;
    while i < involved.len()
        invariant
            0 <= i <= involved@.len(),
            running@ == old(running)@.union(involved@.take(i as int).to_set()),
        decreases involved@.len() - i,
    {
        running.insert(involved[i]);
        proof {
            lemma_take_push_set(involved@, i as int);
        }
        i = i + 1;
    }
    assert(involved@.take(involved@.len() as int) =~= involved@);
    true
}

/// Hands back the levels of a finished task.
pub fn release_levels(running: &mut HashSet<usize>, involved: &Vec<usize>)
    ensures
        final(running)@ == old(running)@.difference(involved@.to_set()),
{
    let mut i: usize = 0;
    while i < involved.len()
        invariant
            0 <= i <= involved@.len(),
            running@ == old(running)@.difference(involved@.take(i as int).to_set()),
        decreases involved@.len() - i,
    {
        running.remove(&involved[i]);
        proof {
            lemma_take_push_set(involved@, i as int);
            assert(old(running)@.difference(involved@.take(i + 1).to_set()) =~= old(running)@.difference(
                involved@.take(i as int).to_set(),
            ).remove(involved@[i as int]));
        }
        i = i + 1;
    }
    assert(involved@.take(involved@.len() as int) =~= involved@);
}

proof fn lemma_take_push_set(s: Seq<usize>, i: int)
    requires
        0 <= i < s.len(),
    ensures
        s.take(i + 1).to_set() == s.take(i).to_set().insert(s[i]),
{
    assert(s.take(i + 1) =~= s.take(i).push(s[i]));
    s.take(i).lemma_push_to_set_commute(s[i]);
}

/// Reserving the levels of a task and releasing them after it ran leaves
/// the set of reserved levels as it was, and a reservation never succeeds
/// for levels that are already reserved.
pub proof fn lemma_reserve_release(running: Set<usize>, involved: Set<usize>)
    ensures
        running.disjoint(involved) ==> running.union(involved).difference(involved) == running,
        !involved.is_empty() ==> !running.union(involved).disjoint(involved),
{
    if running.disjoint(involved) {
        assert(running.union(involved).difference(involved) =~= running);
    }
    if !involved.is_empty() {
        let x = involved.choose();
        assert(running.union(involved).contains(x));
    }
}

/// Whether a task is a trivial move, which only updates the tree's shape.
pub fn is_trivial_move(task: &CompactionTask) -> (r: bool)
    ensures
        r == (task matches CompactionTask::Leveled(t) && t.leveled_task_type
            == LeveledTaskType::TrivialMoveTask),
{
    match task {
        CompactionTask::Leveled(t) => t.leveled_task_type == LeveledTaskType::TrivialMoveTask,
        _ => false,
    }
}

/// Whether enough immutable memtables have piled up to flush one.
pub fn should_flush(imm_memtables: usize, num_memtable_limit: usize) -> (r: bool)
    ensures
        r == (imm_memtables >= num_memtable_limit),
{
    imm_memtables >= num_memtable_limit
}

/// Whether a table spanning `first..=last` overlaps one spanning
/// `moved_first..=moved_last`.
pub open spec fn ranges_overlap(first: KeyView, last: KeyView, moved_first: KeyView, moved_last: KeyView) -> bool {
    !(key_less(last, moved_first) || key_greater(first, moved_last))
}

/// Whether a trivial move of `moved` into level `target_level` (counted
/// from one) may still go ahead: the level exists and none of its tables,
/// `lower`, overlaps the moved table.
pub fn trivial_move_allowed(
    target_level: usize,
    num_levels: usize,
    moved: &SstMeta,
    lower: &Vec<SstMeta>,
) -> (r: bool)
    ensures
        r == (target_level != 0 && target_level <= num_levels && forall|i: int|
            0 <= i < lower@.len() ==> !ranges_overlap(
                #[trigger] lower@[i].first_key@,
                lower@[i].last_key@,
                moved.first_key@,
                moved.last_key@,
            )),
{
    if target_level == 0 || target_level > num_levels {
        return false;
    }
    let mut i: usize = 0;
    while i < lower.len()
        invariant
            0 <= i <= lower@.len(),
            forall|j: int|
                0 <= j < i ==> !ranges_overlap(
                    #[trigger] lower@[j].first_key@,
                    lower@[j].last_key@,
                    moved.first_key@,
                    moved.last_key@,
                ),
        decreases lower@.len() - i,
    {
        let sst = &lower[i];
        if !(key_lt(&sst.last_key, &moved.first_key) || key_gt(&sst.first_key, &moved.last_key)) {
            return false;
        }
        i = i + 1;
    }
    true
}

/// Level 0 after a forced full compaction: the first occurrence of each
/// compacted table is removed, everything else stays in order.
pub open spec fn remove_first_occurrences(l0: Seq<usize>, compacted: Set<usize>) -> Seq<usize>
    decreases l0.len(),
{
    if l0.len() == 0 {
        Seq::empty()
    } else if compacted.contains(l0[0]) {
        remove_first_occurrences(l0.drop_first(), compacted.remove(l0[0]))
    } else {
        seq![l0[0]] + remove_first_occurrences(l0.drop_first(), compacted)
    }
}

/// The task of a forced full compaction: all of level 0 and level 1.
pub fn plan_force_full_compaction(options: &CompactionOptions, state: &LsmStorageState) -> (r: CompactionTask)
    requires
        options is NoCompaction,
        state.levels@.len() > 0,
    ensures
        r matches CompactionTask::ForceFullCompaction { l0_sstables, l1_sstables } && l0_sstables@
            == state.l0_sstables@ && l1_sstables@ == state.levels@[0].1@,
{
    CompactionTask::ForceFullCompaction {
        l0_sstables: copy_ids(&state.l0_sstables),
        l1_sstables: copy_ids(&state.levels[0].1),
    }
}

/// The state after a forced full compaction of `l0_sstables` and
/// `l1_sstables` into the tables `new_ids`: level 1 holds the new tables,
/// and the compacted tables leave level 0 (tables flushed meanwhile stay).
pub fn apply_force_full_compaction(
    state: &LsmStorageState,
    l0_sstables: &Vec<usize>,
    l1_sstables: &Vec<usize>,
    new_ids: &Vec<usize>,
) -> (r: LsmStorageState)
    requires
        state.levels@.len() > 0,
        state.levels@[0].1@ == l1_sstables@,
    ensures
        r.l0_sstables@ == remove_first_occurrences(state.l0_sstables@, l0_sstables@.to_set()),
        levels_view(r.levels@) == levels_view(state.levels@).update(0, (state.levels@[0].0, new_ids@)),
{
    let mut levels = copy_levels(&state.levels);
    assert(levels@.len() == levels_view(levels@).len());
    assert(levels_view(levels@)[0] == levels_view(state.levels@)[0]);
    let level_id = levels[0].0;
    let ghost before = levels@;
    levels.set(0, (level_id, copy_ids(new_ids)));
    proof {
        assert forall|j: int| 0 <= j < levels@.len() implies levels_view(levels@)[j] == levels_view(
            state.levels@,
        ).update(0, (state.levels@[0].0, new_ids@))[j] by {
            if j != 0 {
                assert(levels@[j] == before[j]);
                assert(levels_view(before)[j] == levels_view(state.levels@)[j]);
            }
        }
        assert(levels_view(levels@) =~= levels_view(state.levels@).update(0, (state.levels@[0].0, new_ids@)));
    }
    let mut compacted: HashSet<usize> = HashSet::new();
    let mut i: usize = 0;
    while i < l0_sstables.len()
        invariant
            0 <= i <= l0_sstables@.len(),
            compacted@ == l0_sstables@.take(i as int).to_set(),
        decreases l0_sstables@.len() - i,
    {
        compacted.insert(l0_sstables[i]);
        proof {
            lemma_take_push_set(l0_sstables@, i as int);
        }
        i = i + 1;
    }
    assert(l0_sstables@.take(l0_sstables@.len() as int) =~= l0_sstables@);
    let ghost l0 = state.l0_sstables@;
    let mut kept: Vec<usize> = Vec::new();
    assert(l0.skip(0) =~= l0);
    assert(kept@ + remove_first_occurrences(l0, compacted@) =~= remove_first_occurrences(l0, compacted@));
    let mut i: usize = 0;
    while i < state.l0_sstables.len()
        invariant
            0 <= i <= l0.len(),
            l0 == state.l0_sstables@,
            kept@ + remove_first_occurrences(l0.skip(i as int), compacted@) == remove_first_occurrences(
                l0,
                l0_sstables@.to_set(),
            ),
        decreases l0.len() - i,
    {
        let id = state.l0_sstables[i];
        let ghost rest = l0.skip(i as int);
        assert(rest[0] == id);
        assert(rest.drop_first() =~= l0.skip(i + 1));
        let ghost c = compacted@;
        if compacted.remove(&id) {
            assert(remove_first_occurrences(rest, c) == remove_first_occurrences(rest.drop_first(), c.remove(id)));
        } else {
            assert(compacted@ =~= c);
            assert(remove_first_occurrences(rest, c) == seq![id] + remove_first_occurrences(rest.drop_first(), c));
            kept.push(id);
            assert(kept@ + remove_first_occurrences(l0.skip(i + 1), compacted@) =~= (kept@.drop_last()
                + (seq![id] + remove_first_occurrences(l0.skip(i + 1), compacted@))));
        }
        i = i + 1;
    }
    assert(l0.skip(l0.len() as int) =~= Seq::<usize>::empty());
    assert(kept@ =~= kept@ + Seq::<usize>::empty());
    LsmStorageState { l0_sstables: kept, levels }
}

/// Updates the ids of the tables the store holds when a compaction is
/// installed: the compacted tables leave, then the new ones enter. Each
/// compacted table must be held (and named once), and each new table must
/// be new (named once, and not held once the compacted ones left).
pub fn replace_tables(tables: &mut HashSet<usize>, removed: &Vec<usize>, added: &Vec<usize>)
    requires
        removed@.no_duplicates(),
        forall|i: int| 0 <= i < removed@.len() ==> old(tables)@.contains(#[trigger] removed@[i]),
        added@.no_duplicates(),
        forall|i: int|
            0 <= i < added@.len() ==> !old(tables)@.contains(#[trigger] added@[i]) || removed@.contains(added@[i]),
    ensures
        final(tables)@ == old(tables)@.difference(removed@.to_set()).union(added@.to_set()),
{
    let mut i: usize = 0;
    while i < removed.len()
        invariant
            0 <= i <= removed@.len(),
            tables@ == old(tables)@.difference(removed@.take(i as int).to_set()),
        decreases removed@.len() - i,
    {
        tables.remove(&removed[i]);
        proof {
            lemma_take_push_set(removed@, i as int);
            assert(old(tables)@.difference(removed@.take(i + 1).to_set()) =~= old(tables)@.difference(
                removed@.take(i as int).to_set(),
            ).remove(removed@[i as int]));
        }
        i = i + 1;
    }
    assert(removed@.take(removed@.len() as int) =~= removed@);
    let ghost mid = tables@;
    let mut j: usize = 0;
    assert(mid.union(added@.take(0).to_set()) =~= mid);
    while j < added.len()
        invariant
            0 <= j <= added@.len(),
            tables@ == mid.union(added@.take(j as int).to_set()),
        decreases added@.len() - j,
    {
        tables.insert(added[j]);
        proof {
            lemma_take_push_set(added@, j as int);
            assert(mid.union(added@.take(j + 1).to_set()) =~= mid.union(added@.take(j as int).to_set()).insert(
                added@[j as int],
            ));
        }
        j = j + 1;
    }
    assert(added@.take(added@.len() as int) =~= added@);
}

/// Installs a forced full compaction of `l0_sstables` and `l1_sstables`
/// into the tables `new_ids`: the compacted tables leave the held tables and
/// the new ones enter, level 1 holds the new tables, and the compacted
/// tables leave level 0 (tables flushed meanwhile stay).
pub fn commit_full_compaction(
    state: &LsmStorageState,
    tables: &mut HashSet<usize>,
    l0_sstables: &Vec<usize>,
    l1_sstables: &Vec<usize>,
    new_ids: &Vec<usize>,
) -> (r: LsmStorageState)
    requires
        state.levels@.len() > 0,
        state.levels@[0].1@ == l1_sstables@,
        (l0_sstables@ + l1_sstables@).no_duplicates(),
        forall|i: int|
            0 <= i < (l0_sstables@ + l1_sstables@).len() ==> old(tables)@.contains(
                #[trigger] (l0_sstables@ + l1_sstables@)[i],
            ),
        new_ids@.no_duplicates(),
        forall|i: int|
            0 <= i < new_ids@.len() ==> !old(tables)@.contains(#[trigger] new_ids@[i]) || (l0_sstables@
                + l1_sstables@).contains(new_ids@[i]),
    ensures
        final(tables)@ == old(tables)@.difference((l0_sstables@ + l1_sstables@).to_set()).union(
            new_ids@.to_set(),
        ),
        r.l0_sstables@ == remove_first_occurrences(state.l0_sstables@, l0_sstables@.to_set()),
        levels_view(r.levels@) == levels_view(state.levels@).update(0, (state.levels@[0].0, new_ids@)),
{
    let mut compacted: Vec<usize> = copy_ids(l0_sstables);
    let mut i: usize = 0;
    let ghost l0 = compacted@;
    while i < l1_sstables.len()
        invariant
            0 <= i <= l1_sstables@.len(),
            l0 == l0_sstables@,
            compacted@ == l0 + l1_sstables@.take(i as int),
        decreases l1_sstables@.len() - i,
    {
        compacted.push(l1_sstables[i]);
        assert(l0 + l1_sstables@.take(i + 1) =~= (l0 + l1_sstables@.take(i as int)).push(l1_sstables@[i as int]));
        i = i + 1;
    }
    assert(l1_sstables@.take(l1_sstables@.len() as int) =~= l1_sstables@);
    replace_tables(tables, &compacted, new_ids);
    apply_force_full_compaction(state, l0_sstables, l1_sstables, new_ids)
}

/// A forced full compaction of the level-0 tables `compacted` (distinct),
/// on a level 0 that is those tables with newer ones, flushed meanwhile, in
/// front of them: exactly the newer ones stay at level 0.
pub proof fn lemma_full_compaction_keeps_new_flushes(flushed: Seq<usize>, compacted: Seq<usize>)
    requires
        compacted.no_duplicates(),
        flushed.to_set().disjoint(compacted.to_set()),
    ensures
        remove_first_occurrences(flushed + compacted, compacted.to_set()) == flushed,
    decreases flushed.len() + compacted.len(),
{
    if flushed.len() > 0 {
        let f = flushed[0];
        assert(flushed.to_set().contains(f));
        assert((flushed + compacted).drop_first() =~= flushed.drop_first() + compacted);
        assert forall|x: usize| flushed.drop_first().to_set().contains(x) implies flushed.to_set().contains(x) by {
            let j = choose|j: int| 0 <= j < flushed.drop_first().len() && flushed.drop_first()[j] == x;
            assert(flushed[j + 1] == x);
        }
        lemma_full_compaction_keeps_new_flushes(flushed.drop_first(), compacted);
        assert(seq![f] + flushed.drop_first() =~= flushed);
    } else if compacted.len() > 0 {
        let c = compacted[0];
        assert(flushed + compacted =~= compacted);
        assert(compacted.to_set().contains(c));
        assert(compacted.drop_first().to_set() =~= compacted.to_set().remove(c)) by {
            assert forall|x: usize| #[trigger] compacted.to_set().remove(c).contains(x) implies compacted.drop_first().to_set().contains(x) by {
                let j = choose|j: int| 0 <= j < compacted.len() && compacted[j] == x;
                assert(j != 0);
                assert(compacted.drop_first()[j - 1] == x);
            }
            assert forall|x: usize| #[trigger] compacted.drop_first().to_set().contains(x) implies compacted.to_set().remove(c).contains(x) by {
                let j = choose|j: int| 0 <= j < compacted.drop_first().len() && compacted.drop_first()[j] == x;
                assert(compacted[j + 1] == x);
                assert(compacted[0] != compacted[j + 1]);
            }
        }
        assert(compacted.drop_first().no_duplicates());
        assert(Seq::<usize>::empty().to_set() =~= Set::<usize>::empty());
        lemma_full_compaction_keeps_new_flushes(Seq::empty(), compacted.drop_first());
        assert(Seq::<usize>::empty() + compacted.drop_first() =~= compacted.drop_first());
    }
}

/// How a compaction reads its input tables.
pub enum CompactionInputs {
    /// The upper tables each read on their own and merged, newest first,
    /// over the lower tables read one after the other.
    MergedOverConcat { upper: Vec<usize>, lower: Vec<usize> },
    /// The upper and the lower tables each read one after the other, the
    /// upper over the lower.
    ConcatOverConcat { upper: Vec<usize>, lower: Vec<usize> },
    /// Each tier's tables read one after the other, the tiers merged,
    /// newest first.
    Tiers { tiers: Vec<Vec<usize>> },
}

/// The inputs of a compaction, whether it may be split into
/// sub-compactions first, and whether it writes the bottom level.
pub struct CompactionPlan {
    pub inputs: CompactionInputs,
    pub try_subcompaction: bool,
    pub to_bottom_level: bool,
}

/// The inputs as plain values: the kind (0 merged over concatenated,
/// 1 concatenated over concatenated, 2 tiers) and the table lists.
pub open spec fn inputs_view(i: CompactionInputs) -> (nat, Seq<Seq<usize>>) {
    match i {
        CompactionInputs::MergedOverConcat { upper, lower } => (0, seq![upper@, lower@]),
        CompactionInputs::ConcatOverConcat { upper, lower } => (1, seq![upper@, lower@]),
        CompactionInputs::Tiers { tiers } => (2, tiers@.map_values(|t: Vec<usize>| t@)),
    }
}

/// The plan of a task: a forced full compaction merges level 0 over
/// level 1; a leveled or simple task reads a level-0 upper level table by
/// table and any other level in order, and may be split when more than one
/// sub-compaction is allowed; a tiered task merges its tiers.
pub open spec fn spec_plan(task: &CompactionTask, num_subcompactions: usize) -> (nat, Seq<Seq<usize>>, bool) {
    match task {
        CompactionTask::ForceFullCompaction { l0_sstables, l1_sstables } => (
            0,
            seq![l0_sstables@, l1_sstables@],
            false,
        ),
        CompactionTask::Leveled(t) => (
            if t.upper_level is Some { 1 } else { 0 },
            seq![t.upper_level_sst_ids@, t.lower_level_sst_ids@],
            num_subcompactions > 1,
        ),
        CompactionTask::Simple(t) => (
            if t.upper_level is Some { 1 } else { 0 },
            seq![t.upper_level_sst_ids@, t.lower_level_sst_ids@],
            num_subcompactions > 1,
        ),
        CompactionTask::Tiered(t) => (2, t.tiers@.map_values(|p: (usize, Vec<usize>)| p.1@), false),
    }
}

fn upper_lower(upper_is_level: bool, upper: &Vec<usize>, lower: &Vec<usize>) -> (r: CompactionInputs)
    ensures
        inputs_view(r) == (if upper_is_level { 1nat } else { 0nat }, seq![upper@, lower@]),
{
    if upper_is_level {
        CompactionInputs::ConcatOverConcat { upper: copy_ids(upper), lower: copy_ids(lower) }
    } else {
        CompactionInputs::MergedOverConcat { upper: copy_ids(upper), lower: copy_ids(lower) }
    }
}

/// Plans how a task reads its inputs.
pub fn plan_compaction(task: &CompactionTask, num_subcompactions: usize) -> (r: CompactionPlan)
    ensures
        (inputs_view(r.inputs).0, inputs_view(r.inputs).1, r.try_subcompaction) == spec_plan(
            task,
            num_subcompactions,
        ),
        r.to_bottom_level == task.spec_compact_to_bottom_level(),
{
    let to_bottom_level = task.compact_to_bottom_level();
    match task {
        CompactionTask::ForceFullCompaction { l0_sstables, l1_sstables } => CompactionPlan {
            inputs: upper_lower(false, l0_sstables, l1_sstables),
            try_subcompaction: false,
            to_bottom_level,
        },
        CompactionTask::Leveled(t) => CompactionPlan {
            inputs: upper_lower(t.upper_level.is_some(), &t.upper_level_sst_ids, &t.lower_level_sst_ids),
            try_subcompaction: num_subcompactions > 1,
            to_bottom_level,
        },
        CompactionTask::Simple(t) => CompactionPlan {
            inputs: upper_lower(t.upper_level.is_some(), &t.upper_level_sst_ids, &t.lower_level_sst_ids),
            try_subcompaction: num_subcompactions > 1,
            to_bottom_level,
        },
        CompactionTask::Tiered(t) => {
            let mut tiers: Vec<Vec<usize>> = Vec::new();
            let mut i: usize = 0;
            while i < t.tiers.len()
                invariant
                    0 <= i <= t.tiers@.len(),
                    tiers@.len() == i,
                    forall|j: int| 0 <= j < i ==> (#[trigger] tiers@[j])@ == t.tiers@[j].1@,
                decreases t.tiers@.len() - i,
            {
                tiers.push(copy_ids(&t.tiers[i].1));
                i = i + 1;
            }
            let r = CompactionPlan { inputs: CompactionInputs::Tiers { tiers }, try_subcompaction: false, to_bottom_level };
            assert(inputs_view(r.inputs).1 =~= t.tiers@.map_values(|p: (usize, Vec<usize>)| p.1@));
            r
        },
    }
}

/// Reserves the levels of a task about to run in the background: the
/// reserved levels when none of them was taken; `None`, with nothing
/// reserved, for a task that does not run in the background or whose levels
/// are taken.
pub fn try_reserve_task(running: &mut HashSet<usize>, task: &CompactionTask) -> (r: Option<Vec<usize>>)
    ensures
        match r {
            Some(v) => spec_involved_levels(task) == Some(v@.to_set()) && old(running)@.disjoint(v@.to_set())
                && final(running)@ == old(running)@.union(v@.to_set()),
            None => final(running)@ == old(running)@ && match spec_involved_levels(task) {
                Some(s) => !old(running)@.disjoint(s),
                None => true,
            },
        },
{
    match involved_levels(task) {
        None => None,
        Some(v) => {
            if reserve_levels(running, &v) {
                Some(v)
            } else {
                None
            }
        },
    }
}

/// The table a trivial move moves: the task's first upper table; an
/// internal error for a task without upper tables.
pub fn trivial_move_table(task: &LeveledCompactionTask) -> (r: Result<usize, LsmError>)
    ensures
        task.upper_level_sst_ids@.len() > 0 ==> r == Ok::<usize, LsmError>(task.upper_level_sst_ids@[0]),
        task.upper_level_sst_ids@.len() == 0 ==> (r matches Err(LsmError::Internal(m)) && m@
            == "upper_level_sst_ids cannot be empty"@),
{
    if task.upper_level_sst_ids.len() == 0 {
        let mut m = String::new();
        append_text(&mut m, "upper_level_sst_ids cannot be empty");
        return Err(LsmError::Internal(m));
    }
    Ok(task.upper_level_sst_ids[0])
}

} // verus!
