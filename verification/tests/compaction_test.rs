use mini_lsm_starter::compact::subcompaction::order_by_first_key;
use mini_lsm_starter::compact::{plan_compaction, CompactionInputs, SimpleLeveledCompactionTask};
use mini_lsm_starter::compact::try_reserve_task;
use mini_lsm_starter::compact::trivial_move_table;
use mini_lsm_starter::compact::{commit_full_compaction, replace_tables};
use mini_lsm_starter::error::LsmError;
use bytes::Bytes;
use mini_lsm_starter::compact::filter::{CompactionFilter, EntryAction, EntryFilter, EntryRules};
use mini_lsm_starter::compact::subcompaction::{
    find_subcompaction_boundaries, plan_subcompactions, sst_overlaps_range,
};
use mini_lsm_starter::compact::tiered::{
    TieredCompactionController, TieredCompactionOptions, TieredCompactionTask,
};
use mini_lsm_starter::compact::{
    apply_force_full_compaction, involved_levels, release_levels, reserve_levels,
    should_flush, trivial_move_allowed, CompactionController, CompactionOptions, CompactionTask,
    LeveledCompactionTask, LeveledTaskType,
};
use mini_lsm_starter::key::{KeyBytes, KeySlice, Type};
use mini_lsm_starter::lsm_storage::{LsmStorageState, SstMeta};
use std::collections::HashSet;

fn opts(num_tiers: usize, amp: usize, ratio: usize, min_w: usize, max_w: Option<usize>) -> TieredCompactionOptions {
    TieredCompactionOptions {
        num_tiers,
        max_size_amplification_percent: amp,
        size_ratio: ratio,
        min_merge_width: min_w,
        max_merge_width: max_w,
    }
}

fn state(levels: Vec<(usize, Vec<usize>)>) -> LsmStorageState {
    LsmStorageState { l0_sstables: vec![], levels }
}

#[test]
fn tiered_no_task_below_tier_count() {
    let c = TieredCompactionController::new(opts(3, 200, 1, 2, None));
    let s = state(vec![(1, vec![1]), (2, vec![2])]);
    assert!(c.generate_compaction_task(&s).is_none());
}

#[test]
fn tiered_space_amplification_takes_everything() {
    let c = TieredCompactionController::new(opts(3, 200, 1, 2, None));
    // Upper tiers hold 4 tables against 2 at the bottom: 200 percent.
    let s = state(vec![(5, vec![10, 11]), (4, vec![8, 9]), (3, vec![6, 7])]);
    let t = c.generate_compaction_task(&s).unwrap();
    assert!(t.bottom_tier_included);
    assert_eq!(t.tiers.len(), 3);
    assert_eq!(t.tiers[0], (5, vec![10, 11]));
}

#[test]
fn tiered_size_ratio_takes_upper_tiers() {
    let c = TieredCompactionController::new(opts(3, 1000, 1, 2, None));
    // Tier 3 (three tables) exceeds 101% of the two tables above it.
    let s = state(vec![(9, vec![1]), (8, vec![2]), (7, vec![3, 4, 5]), (6, vec![6; 20])]);
    let t = c.generate_compaction_task(&s).unwrap();
    assert!(!t.bottom_tier_included);
    assert_eq!(t.tiers, vec![(9, vec![1]), (8, vec![2])]);
}

#[test]
fn tiered_reduce_sorted_runs_respects_max_width() {
    let c = TieredCompactionController::new(opts(3, 1000, 1000, 2, Some(2)));
    let s = state(vec![(9, vec![1]), (8, vec![2]), (7, vec![3]), (6, vec![4, 5, 6, 7, 8, 9, 10, 11, 12, 13, 14])]);
    let t = c.generate_compaction_task(&s).unwrap();
    assert_eq!(t.tiers.len(), 2);
    assert!(t.bottom_tier_included);
}

#[test]
fn tiered_apply_replaces_merged_tiers() {
    let c = TieredCompactionController::new(opts(3, 200, 1, 2, None));
    let s = state(vec![(5, vec![10, 11]), (4, vec![8, 9]), (3, vec![6, 7])]);
    let task = TieredCompactionTask {
        tiers: vec![(5, vec![10, 11]), (4, vec![8, 9])],
        bottom_tier_included: false,
    };
    let (next, removed) = c.apply_compaction_result(&s, &task, &[20, 21]);
    assert_eq!(next.levels, vec![(20, vec![20, 21]), (3, vec![6, 7])]);
    assert_eq!(removed, vec![10, 11, 8, 9]);
}

#[test]
fn controller_dispatch() {
    let ctrl = CompactionController::Tiered(TieredCompactionController::new(opts(2, 200, 1, 2, None)));
    assert!(!ctrl.flush_to_l0());
    assert!(CompactionController::NoCompaction.flush_to_l0());
    let s = state(vec![(2, vec![2]), (1, vec![1])]);
    match ctrl.generate_compaction_task(&s) {
        Some(CompactionTask::Tiered(t)) => assert!(t.bottom_tier_included),
        _ => panic!("expected a tiered task"),
    }
    let _ = CompactionOptions::NoCompaction;
}

#[test]
fn levels_are_reserved_and_released() {
    let task = CompactionTask::Leveled(LeveledCompactionTask {
        upper_level: None,
        upper_level_sst_ids: vec![1],
        lower_level: 1,
        lower_level_sst_ids: vec![2],
        is_lower_level_bottom_level: false,
        leveled_task_type: LeveledTaskType::MergeTask,
    });
    let involved = involved_levels(&task).unwrap();
    let mut running: HashSet<usize> = HashSet::new();
    assert!(reserve_levels(&mut running, &involved));
    assert!(running.contains(&0) && running.contains(&1));
    assert!(!reserve_levels(&mut running, &vec![1, 5]));
    assert!(!running.contains(&5));
    release_levels(&mut running, &involved);
    assert!(running.is_empty());
    let full = CompactionTask::ForceFullCompaction { l0_sstables: vec![], l1_sstables: vec![] };
    assert!(involved_levels(&full).is_none());
    assert!(full.compact_to_bottom_level());
    assert!(should_flush(3, 3));
    assert!(!should_flush(2, 3));
}

#[test]
fn full_compaction_keeps_new_flushes() {
    let s = LsmStorageState { l0_sstables: vec![9, 8, 3, 2], levels: vec![(1, vec![1])] };
    let next = apply_force_full_compaction(&s, &vec![3, 2], &vec![1], &vec![10, 11]);
    assert_eq!(next.l0_sstables, vec![9, 8]);
    assert_eq!(next.levels, vec![(1, vec![10, 11])]);
}

#[test]
fn full_compaction_replaces_held_tables() {
    let s = LsmStorageState { l0_sstables: vec![9, 8, 3, 2], levels: vec![(1, vec![1])] };
    let mut tables: HashSet<usize> = [9, 8, 3, 2, 1].into_iter().collect();
    let next = commit_full_compaction(&s, &mut tables, &vec![3, 2], &vec![1], &vec![10, 11]);
    let expected: HashSet<usize> = [9, 8, 10, 11].into_iter().collect();
    assert_eq!(tables, expected);
    assert_eq!(next.l0_sstables, vec![9, 8]);
    assert_eq!(next.levels, vec![(1, vec![10, 11])]);
    let mut held: HashSet<usize> = [4, 5].into_iter().collect();
    replace_tables(&mut held, &vec![4], &vec![4, 6]);
    let expected: HashSet<usize> = [4, 5, 6].into_iter().collect();
    assert_eq!(held, expected);
}

fn kb(s: &[u8], ts: u64) -> KeyBytes {
    KeyBytes::from_bytes_with_ts(Bytes::copy_from_slice(s), ts)
}

fn meta(id: usize, first: &[u8], last: &[u8]) -> SstMeta {
    SstMeta { id, first_key: kb(first, 1), last_key: kb(last, 1), block_first_keys: vec![kb(first, 1), kb(last, 1)] }
}

#[test]
fn trivial_move_checks_overlap() {
    let moved = meta(1, b"d", b"f");
    let lower = vec![meta(2, b"a", b"c"), meta(3, b"g", b"h")];
    assert!(trivial_move_allowed(1, 2, &moved, &lower));
    assert!(!trivial_move_allowed(0, 2, &moved, &lower));
    assert!(!trivial_move_allowed(3, 2, &moved, &lower));
    let overlapping = vec![meta(4, b"e", b"z")];
    assert!(!trivial_move_allowed(1, 2, &moved, &overlapping));
}

fn rules(watermark: u64, bottom: bool) -> EntryRules {
    EntryRules { watermark, compact_to_bottom_level: bottom, current_time: 1000, target_sst_size: 100 }
}

#[test]
fn entry_filter_keeps_newest_version_below_watermark() {
    let mut f = EntryFilter::new(rules(10, false), vec![]);
    assert_eq!(f.next_entry(KeySlice::from_slice(b"a", 20), 0), EntryAction::Add { new_table: false });
    assert_eq!(f.next_entry(KeySlice::from_slice(b"a", 9), 0), EntryAction::Add { new_table: false });
    assert_eq!(f.next_entry(KeySlice::from_slice(b"a", 5), 0), EntryAction::Skip);
    assert_eq!(f.next_entry(KeySlice::from_slice(b"b", 5), 200), EntryAction::Add { new_table: true });
}

#[test]
fn entry_filter_drops_bottom_tombstones_and_expired() {
    let mut f = EntryFilter::new(rules(10, true), vec![]);
    let del = KeySlice::from_slice_with_type(b"a", 3, Type::DELETE);
    assert_eq!(f.next_entry(del, 0), EntryAction::Skip);
    assert_eq!(f.next_entry(KeySlice::from_slice(b"a", 2), 0), EntryAction::Skip);
    let expired = KeySlice::from_slice_with_ttl(b"b", 3, 500);
    assert_eq!(f.next_entry(expired, 0), EntryAction::Skip);
    let fresh = KeySlice::from_slice_with_ttl(b"c", 3, 5000);
    assert_eq!(f.next_entry(fresh, 0), EntryAction::Add { new_table: false });
}

#[test]
fn entry_filter_prefix_filters() {
    let mut f = EntryFilter::new(rules(10, false), vec![CompactionFilter::Prefix(Bytes::from_static(b"tmp_"))]);
    assert_eq!(f.next_entry(KeySlice::from_slice(b"tmp_x", 4), 0), EntryAction::Skip);
    assert_eq!(f.next_entry(KeySlice::from_slice(b"tmp_y", 40), 0), EntryAction::Add { new_table: false });
    assert_eq!(f.next_entry(KeySlice::from_slice(b"user", 4), 0), EntryAction::Add { new_table: false });
}

#[test]
fn boundaries_split_evenly() {
    let ssts = vec![meta(1, b"a", b"b"), meta(2, b"c", b"d"), meta(3, b"e", b"f")];
    assert_eq!(find_subcompaction_boundaries(&ssts, 1).len(), 1);
    let b = find_subcompaction_boundaries(&ssts, 3);
    // Six distinct anchor points, three ranges, cut every second point.
    assert_eq!(b.len(), 3);
    assert!(b[0].0.is_none());
    assert_eq!(b[0].1.as_ref().unwrap().key_ref(), b"c");
    assert_eq!(b[1].0.as_ref().unwrap().key_ref(), b"c");
    assert_eq!(b[1].1.as_ref().unwrap().key_ref(), b"e");
    assert!(b[2].1.is_none());
    assert_eq!(find_subcompaction_boundaries(&vec![], 4).len(), 1);
}

#[test]
fn overlap_with_ranges() {
    let sst = meta(1, b"c", b"f");
    assert!(sst_overlaps_range(&sst, &None, &None));
    assert!(sst_overlaps_range(&sst, &Some(kb(b"d", 1)), &None));
    assert!(!sst_overlaps_range(&sst, &Some(kb(b"g", 1)), &None));
    assert!(!sst_overlaps_range(&sst, &None, &Some(kb(b"c", 1))));
}

#[test]
fn subcompaction_plans_cover_tables() {
    let upper = vec![meta(1, b"e", b"f"), meta(2, b"a", b"b")];
    let lower = vec![meta(3, b"c", b"d")];
    let plans = plan_subcompactions(&upper, &lower, 3).unwrap();
    assert_eq!(plans.len(), 3);
    assert_eq!(plans[0].upper, vec![1]);
    assert!(plans[0].lower.is_empty());
    assert_eq!(plans[1].lower, vec![0]);
    assert_eq!(plans[2].upper, vec![0]);
    assert!(plan_subcompactions(&upper, &lower, 1).is_none());
}

#[test]
fn compaction_input_plans() {
    let l0 = CompactionTask::Simple(SimpleLeveledCompactionTask {
        upper_level: None,
        upper_level_sst_ids: vec![4, 3],
        lower_level: 1,
        lower_level_sst_ids: vec![1, 2],
        is_lower_level_bottom_level: true,
    });
    let plan = plan_compaction(&l0, 4);
    assert!(plan.try_subcompaction);
    assert!(plan.to_bottom_level);
    match plan.inputs {
        CompactionInputs::MergedOverConcat { upper, lower } => {
            assert_eq!(upper, vec![4, 3]);
            assert_eq!(lower, vec![1, 2]);
        }
        _ => panic!("expected level 0 to be merged"),
    }
    let tiered = CompactionTask::Tiered(TieredCompactionTask {
        tiers: vec![(7, vec![7, 8]), (6, vec![6])],
        bottom_tier_included: false,
    });
    let plan = plan_compaction(&tiered, 4);
    assert!(!plan.try_subcompaction);
    match plan.inputs {
        CompactionInputs::Tiers { tiers } => assert_eq!(tiers, vec![vec![7, 8], vec![6]]),
        _ => panic!("expected tiers"),
    }
    let full = CompactionTask::ForceFullCompaction { l0_sstables: vec![2], l1_sstables: vec![1] };
    assert!(!plan_compaction(&full, 1).try_subcompaction);
}

#[test]
fn background_tasks_reserve_their_levels() {
    let task = CompactionTask::Tiered(TieredCompactionTask {
        tiers: vec![(7, vec![7]), (6, vec![6])],
        bottom_tier_included: false,
    });
    let mut running: HashSet<usize> = HashSet::new();
    running.insert(6);
    assert!(try_reserve_task(&mut running, &task).is_none());
    assert_eq!(running.len(), 1);
    running.clear();
    let reserved = try_reserve_task(&mut running, &task).unwrap();
    assert_eq!(reserved, vec![7, 6]);
    assert_eq!(running.len(), 2);
    let full = CompactionTask::ForceFullCompaction { l0_sstables: vec![], l1_sstables: vec![] };
    assert!(try_reserve_task(&mut running, &full).is_none());
}

#[test]
fn trivial_move_needs_a_table() {
    let mut task = LeveledCompactionTask {
        upper_level: Some(1),
        upper_level_sst_ids: vec![9, 10],
        lower_level: 2,
        lower_level_sst_ids: vec![],
        is_lower_level_bottom_level: false,
        leveled_task_type: LeveledTaskType::TrivialMoveTask,
    };
    assert_eq!(trivial_move_table(&task).unwrap(), 9);
    task.upper_level_sst_ids.clear();
    match trivial_move_table(&task) {
        Err(LsmError::Internal(m)) => assert_eq!(m, "upper_level_sst_ids cannot be empty"),
        _ => panic!("expected an error"),
    }
}

#[test]
fn outputs_listed_by_first_key() {
    let ssts = vec![meta(1, b"m", b"n"), meta(2, b"a", b"b"), meta(3, b"m", b"z"), meta(4, b"c", b"d")];
    assert_eq!(order_by_first_key(&ssts), vec![1, 3, 0, 2]);
}
