use std::collections::HashMap;
use std::sync::Arc;

use mini_lsm::compact::{
    CompactionController, CompactionOptions, CompactionTask, LeveledCompactionController, LeveledCompactionOptions,
    LeveledCompactionTask, SimpleLeveledCompactionController, SimpleLeveledCompactionOptions,
    SimpleLeveledCompactionTask, TieredCompactionController, TieredCompactionOptions, TieredCompactionTask,
};
use mini_lsm::iterators::StorageIterator;
use mini_lsm::lsm_storage::{LsmStorageInner, LsmStorageOptions, LsmStorageState};
use mini_lsm::table::{SsTable, SsTableBuilder, SsTableIterator};

fn table(id: usize, entries: &[(&str, &str)]) -> Arc<SsTable> {
    let mut builder = SsTableBuilder::new(64);
    for (k, v) in entries {
        builder.add(k.as_bytes(), v.as_bytes());
    }
    Arc::new(builder.build(id))
}

fn state(l0: Vec<usize>, levels: Vec<(usize, Vec<usize>)>) -> LsmStorageState {
    LsmStorageState { imm_memtables: Vec::new(), l0_sstables: l0, levels, sstables: HashMap::new() }
}

fn simple_options() -> SimpleLeveledCompactionOptions {
    SimpleLeveledCompactionOptions { size_ratio_percent: 200, level0_file_num_compaction_trigger: 2, max_levels: 3 }
}

fn tiered_options(max_amp: usize) -> TieredCompactionOptions {
    TieredCompactionOptions {
        num_tiers: 3,
        max_size_amplification_percent: max_amp,
        size_ratio: 1,
        min_merge_width: 2,
        max_merge_width: None,
    }
}

fn leveled_options() -> LeveledCompactionOptions {
    LeveledCompactionOptions {
        level_size_multiplier: 2,
        level0_file_num_compaction_trigger: 2,
        max_levels: 3,
        base_level_size_mb: 1,
    }
}

fn entries_of(t: &Arc<SsTable>) -> Vec<(String, String)> {
    let mut iter = SsTableIterator::create_and_seek_to_first(t.clone());
    let mut out = Vec::new();
    while iter.is_valid() {
        out.push((
            String::from_utf8(iter.key().to_vec()).unwrap(),
            String::from_utf8(iter.value().to_vec()).unwrap(),
        ));
        iter.next();
    }
    out
}

fn engine(s: LsmStorageState, controller: CompactionController, compaction_options: CompactionOptions) -> LsmStorageInner {
    LsmStorageInner {
        state: s,
        options: LsmStorageOptions {
            block_size: 64,
            target_sst_size: 1 << 20,
            num_memtable_limit: 2,
            compaction_options,
        },
        compaction_controller: controller,
        next_sst_id: 100,
    }
}

#[test]
fn simple_leveled_compacts_l0_when_it_reaches_the_trigger() {
    let ctrl = SimpleLeveledCompactionController::new(simple_options());
    let s = state(vec![2, 1], vec![(1, vec![5]), (2, vec![]), (3, vec![])]);
    let task = ctrl.generate_compaction_task(&s).unwrap();
    assert_eq!(task.upper_level, None);
    assert_eq!(task.upper_level_sst_ids, vec![2, 1]);
    assert_eq!(task.lower_level, 1);
    assert_eq!(task.lower_level_sst_ids, vec![5]);
    assert!(!task.is_lower_level_bottom_level);
}

#[test]
fn simple_leveled_compacts_a_level_that_breaks_the_size_ratio() {
    let ctrl = SimpleLeveledCompactionController::new(simple_options());
    // L1 holds 2 SSTs, L2 none: 0 * 100 < 2 * 200.
    let s = state(vec![1], vec![(1, vec![3, 4]), (2, vec![]), (3, vec![])]);
    let task = ctrl.generate_compaction_task(&s).unwrap();
    assert_eq!(task.upper_level, Some(1));
    assert_eq!(task.upper_level_sst_ids, vec![3, 4]);
    assert_eq!(task.lower_level, 2);
    assert_eq!(task.lower_level_sst_ids, Vec::<usize>::new());
    assert!(!task.is_lower_level_bottom_level);
}

#[test]
fn simple_leveled_stops_at_the_first_level_that_breaks_the_ratio() {
    let ctrl = SimpleLeveledCompactionController::new(SimpleLeveledCompactionOptions {
        size_ratio_percent: 200,
        level0_file_num_compaction_trigger: 2,
        max_levels: 5,
    });
    // Only two levels exist; the scan stops at L1 before it would need L3.
    let s = state(vec![], vec![(1, vec![3, 4]), (2, vec![6])]);
    let task = ctrl.generate_compaction_task(&s).unwrap();
    assert_eq!(task.upper_level, Some(1));
    assert_eq!(task.upper_level_sst_ids, vec![3, 4]);
    assert_eq!(task.lower_level, 2);
    assert_eq!(task.lower_level_sst_ids, vec![6]);
    assert!(!task.is_lower_level_bottom_level);
}

#[test]
fn simple_leveled_marks_the_bottom_level() {
    let ctrl = SimpleLeveledCompactionController::new(simple_options());
    let s = state(vec![], vec![(1, vec![]), (2, vec![7, 8]), (3, vec![9])]);
    let task = ctrl.generate_compaction_task(&s).unwrap();
    assert_eq!(task.upper_level, Some(2));
    assert_eq!(task.lower_level, 3);
    assert!(task.is_lower_level_bottom_level);
}

#[test]
fn simple_leveled_generates_nothing_when_balanced() {
    let ctrl = SimpleLeveledCompactionController::new(simple_options());
    let s = state(vec![1], vec![(1, vec![2]), (2, vec![3, 4]), (3, vec![5, 6, 7, 8])]);
    assert!(ctrl.generate_compaction_task(&s).is_none());
}

#[test]
fn simple_leveled_apply_replaces_inputs_with_output() {
    let ctrl = SimpleLeveledCompactionController::new(simple_options());
    let s = state(vec![4, 2, 1], vec![(1, vec![5, 6]), (2, vec![]), (3, vec![])]);
    let task = SimpleLeveledCompactionTask {
        upper_level: None,
        upper_level_sst_ids: vec![2, 1],
        lower_level: 1,
        lower_level_sst_ids: vec![5, 6],
        is_lower_level_bottom_level: false,
    };
    let (new_state, removed) = ctrl.apply_compaction_result(&s, &task, &[10, 11]);
    assert_eq!(new_state.l0_sstables, vec![4]);
    assert_eq!(new_state.levels[0], (1, vec![10, 11]));
    assert_eq!(removed, vec![2, 1, 5, 6]);
}

#[test]
fn simple_leveled_apply_from_a_lower_level() {
    let ctrl = SimpleLeveledCompactionController::new(simple_options());
    let s = state(vec![9], vec![(1, vec![3, 4]), (2, vec![5]), (3, vec![])]);
    let task = SimpleLeveledCompactionTask {
        upper_level: Some(1),
        upper_level_sst_ids: vec![3, 4],
        lower_level: 2,
        lower_level_sst_ids: vec![5],
        is_lower_level_bottom_level: false,
    };
    let (new_state, removed) = ctrl.apply_compaction_result(&s, &task, &[12]);
    assert_eq!(new_state.l0_sstables, vec![9]);
    assert_eq!(new_state.levels[0], (1, vec![]));
    assert_eq!(new_state.levels[1], (2, vec![12]));
    assert_eq!(removed, vec![3, 4, 5]);
}

#[test]
fn tiered_generates_nothing_below_the_tier_count() {
    let ctrl = TieredCompactionController::new(tiered_options(200));
    let s = state(vec![], vec![(2, vec![2]), (1, vec![1])]);
    assert!(ctrl.generate_compaction_task(&s).is_none());
}

#[test]
fn tiered_compacts_everything_on_space_amplification() {
    let ctrl = TieredCompactionController::new(tiered_options(200));
    let s = state(vec![], vec![(3, vec![3]), (2, vec![2]), (1, vec![1])]);
    let task = ctrl.generate_compaction_task(&s).unwrap();
    assert_eq!(task.tiers, vec![(3, vec![3]), (2, vec![2]), (1, vec![1])]);
    assert!(task.bottom_tier_included);
}

#[test]
fn tiered_compacts_the_tiers_before_a_size_ratio_break() {
    let ctrl = TieredCompactionController::new(tiered_options(1000));
    let s = state(vec![], vec![(4, vec![4]), (3, vec![3]), (2, vec![2, 5, 6])]);
    let task = ctrl.generate_compaction_task(&s).unwrap();
    assert_eq!(task.tiers, vec![(4, vec![4]), (3, vec![3])]);
    assert!(!task.bottom_tier_included);
}

#[test]
fn tiered_merges_up_to_the_merge_width() {
    let mut o = tiered_options(1000);
    o.size_ratio = 1000;
    o.max_merge_width = Some(2);
    let ctrl = TieredCompactionController::new(o);
    let s = state(vec![], vec![(4, vec![4]), (3, vec![3]), (2, vec![2])]);
    let task = ctrl.generate_compaction_task(&s).unwrap();
    assert_eq!(task.tiers, vec![(4, vec![4]), (3, vec![3])]);
    assert!(!task.bottom_tier_included);
}

#[test]
fn tiered_apply_puts_a_full_output_at_the_bottom() {
    let ctrl = TieredCompactionController::new(tiered_options(200));
    let s = state(vec![], vec![(3, vec![3]), (2, vec![2]), (1, vec![1])]);
    let task = TieredCompactionTask { tiers: vec![(3, vec![3]), (2, vec![2]), (1, vec![1])], bottom_tier_included: true };
    let (new_state, removed) = ctrl.apply_compaction_result(&s, &task, &[10, 11]);
    assert_eq!(new_state.levels, vec![(10, vec![10, 11])]);
    assert_eq!(removed, vec![3, 2, 1]);
}

#[test]
fn tiered_apply_keeps_newer_tiers_above_the_output() {
    let ctrl = TieredCompactionController::new(tiered_options(1000));
    let s = state(vec![], vec![(9, vec![9]), (4, vec![4]), (3, vec![3]), (2, vec![2, 5, 6])]);
    let task = TieredCompactionTask { tiers: vec![(4, vec![4]), (3, vec![3])], bottom_tier_included: false };
    let (new_state, removed) = ctrl.apply_compaction_result(&s, &task, &[7]);
    assert_eq!(new_state.levels, vec![(9, vec![9]), (7, vec![7]), (2, vec![2, 5, 6])]);
    assert_eq!(removed, vec![4, 3]);
}

#[test]
fn tiered_apply_with_no_output_drops_the_tiers() {
    let ctrl = TieredCompactionController::new(tiered_options(1000));
    let s = state(vec![], vec![(4, vec![4]), (3, vec![3]), (2, vec![2])]);
    let task = TieredCompactionTask { tiers: vec![(4, vec![4]), (3, vec![3])], bottom_tier_included: false };
    let (new_state, _) = ctrl.apply_compaction_result(&s, &task, &[]);
    assert_eq!(new_state.levels, vec![(2, vec![2])]);
}

#[test]
fn leveled_compacts_l0_into_the_base_level() {
    let ctrl = LeveledCompactionController::new(leveled_options());
    let mut s = state(vec![2, 1], vec![(1, vec![]), (2, vec![]), (3, vec![5])]);
    s.sstables.insert(1, table(1, &[("a", "1"), ("c", "1")]));
    s.sstables.insert(2, table(2, &[("b", "2")]));
    s.sstables.insert(5, table(5, &[("b", "5"), ("z", "5")]));
    let task = ctrl.generate_compaction_task(&s).unwrap();
    // The levels are far below the base size, so the base level is the last.
    assert_eq!(task.upper_level, None);
    assert_eq!(task.upper_level_sst_ids, vec![2, 1]);
    assert_eq!(task.lower_level, 3);
    assert_eq!(task.lower_level_sst_ids, vec![5]);
    assert!(task.is_lower_level_bottom_level);
}

#[test]
fn leveled_skips_lower_ssts_outside_the_key_range() {
    let ctrl = LeveledCompactionController::new(leveled_options());
    let mut s = state(vec![2, 1], vec![(1, vec![]), (2, vec![]), (3, vec![5, 6])]);
    s.sstables.insert(1, table(1, &[("d", "1")]));
    s.sstables.insert(2, table(2, &[("e", "2")]));
    s.sstables.insert(5, table(5, &[("a", "5"), ("c", "5")]));
    s.sstables.insert(6, table(6, &[("e", "6"), ("f", "6")]));
    let task = ctrl.generate_compaction_task(&s).unwrap();
    assert_eq!(task.lower_level_sst_ids, vec![6]);
}

#[test]
fn leveled_generates_nothing_when_levels_are_small() {
    let ctrl = LeveledCompactionController::new(leveled_options());
    let mut s = state(vec![1], vec![(1, vec![]), (2, vec![]), (3, vec![])]);
    s.sstables.insert(1, table(1, &[("a", "1")]));
    assert!(ctrl.generate_compaction_task(&s).is_none());
}

#[test]
fn leveled_reads_only_the_levels_it_needs() {
    let ctrl = LeveledCompactionController::new(leveled_options());
    // max_levels is 3, but only the targets of the first two levels are read.
    let mut s = state(vec![1], vec![(1, vec![]), (2, vec![])]);
    s.sstables.insert(1, table(1, &[("a", "1")]));
    assert!(ctrl.reads_existing_levels(&s));
    assert!(ctrl.generate_compaction_task(&s).is_none());
    let wide = LeveledCompactionController::new(LeveledCompactionOptions { max_levels: 5, ..leveled_options() });
    assert!(!wide.reads_existing_levels(&s));
    // With level 0 at its trigger the base level must exist.
    let s = state(vec![1, 2], vec![(1, vec![]), (2, vec![]), (3, vec![])]);
    assert!(ctrl.reads_existing_levels(&s));
}

#[test]
fn leveled_apply_places_output_before_the_first_overlapping_sst() {
    let ctrl = LeveledCompactionController::new(leveled_options());
    let mut s = state(vec![2], vec![(1, vec![]), (2, vec![]), (3, vec![5, 6, 7])]);
    s.sstables.insert(2, table(2, &[("d", "2"), ("e", "2")]));
    s.sstables.insert(5, table(5, &[("a", "5"), ("b", "5")]));
    s.sstables.insert(6, table(6, &[("d", "6")]));
    s.sstables.insert(7, table(7, &[("x", "7")]));
    let task = LeveledCompactionTask {
        upper_level: None,
        upper_level_sst_ids: vec![2],
        lower_level: 3,
        lower_level_sst_ids: vec![6],
        is_lower_level_bottom_level: true,
    };
    let (new_state, removed) = ctrl.apply_compaction_result(&s, &task, &[20, 21], false);
    assert_eq!(new_state.l0_sstables, Vec::<usize>::new());
    assert_eq!(new_state.levels[2], (3, vec![5, 20, 21, 7]));
    assert_eq!(removed, vec![2, 6]);
    assert_eq!(new_state.sstables.len(), s.sstables.len());
}

#[test]
fn leveled_apply_in_recovery_appends_output() {
    let ctrl = LeveledCompactionController::new(leveled_options());
    let s = state(vec![2], vec![(1, vec![]), (2, vec![]), (3, vec![5, 6])]);
    let task = LeveledCompactionTask {
        upper_level: None,
        upper_level_sst_ids: vec![2],
        lower_level: 3,
        lower_level_sst_ids: vec![5],
        is_lower_level_bottom_level: true,
    };
    let (new_state, _) = ctrl.apply_compaction_result(&s, &task, &[20], true);
    assert_eq!(new_state.levels[2], (3, vec![6, 20]));
}

#[test]
fn compaction_task_knows_when_it_reaches_the_bottom() {
    let full = CompactionTask::ForceFullCompaction { l0_sstables: vec![], l1_sstables: vec![] };
    assert!(full.compact_to_bottom_level());
    let tiered = CompactionTask::Tiered(TieredCompactionTask { tiers: vec![], bottom_tier_included: false });
    assert!(!tiered.compact_to_bottom_level());
    let simple = CompactionTask::Simple(SimpleLeveledCompactionTask {
        upper_level: None,
        upper_level_sst_ids: vec![],
        lower_level: 1,
        lower_level_sst_ids: vec![],
        is_lower_level_bottom_level: true,
    });
    assert!(simple.compact_to_bottom_level());
}

#[test]
fn controllers_flush_to_l0_except_tiered() {
    assert!(CompactionController::Simple(SimpleLeveledCompactionController::new(simple_options())).flush_to_l0());
    assert!(CompactionController::Leveled(LeveledCompactionController::new(leveled_options())).flush_to_l0());
    assert!(CompactionController::NoCompaction.flush_to_l0());
    assert!(!CompactionController::Tiered(TieredCompactionController::new(tiered_options(200))).flush_to_l0());
}

#[test]
fn controller_dispatches_generate_and_apply() {
    let ctrl = CompactionController::Simple(SimpleLeveledCompactionController::new(simple_options()));
    let s = state(vec![2, 1], vec![(1, vec![]), (2, vec![]), (3, vec![])]);
    let task = ctrl.generate_compaction_task(&s).unwrap();
    match &task {
        CompactionTask::Simple(t) => assert_eq!(t.upper_level_sst_ids, vec![2, 1]),
        _ => panic!("expected a simple leveled task"),
    }
    let (new_state, removed) = ctrl.apply_compaction_result(&s, &task, &[3], false);
    assert_eq!(new_state.l0_sstables, Vec::<usize>::new());
    assert_eq!(new_state.levels[0].1, vec![3]);
    assert_eq!(removed, vec![2, 1]);
}

#[test]
fn force_full_compaction_merges_l0_over_l1_and_drops_deletions() {
    let mut s = state(vec![2, 1], vec![(1, vec![3])]);
    s.sstables.insert(1, table(1, &[("a", "old"), ("b", "b1")]));
    s.sstables.insert(2, table(2, &[("a", "new"), ("c", "")]));
    s.sstables.insert(3, table(3, &[("c", "c3"), ("d", "d3")]));
    let mut inner = engine(
        s,
        CompactionController::Simple(SimpleLeveledCompactionController::new(simple_options())),
        CompactionOptions::Simple(simple_options()),
    );
    let (new_ssts, removed) = inner.force_full_compaction(&|_: &[Arc<SsTable>]| true);
    let removed = removed.unwrap();
    assert_eq!(new_ssts.len(), 1);
    assert_eq!(new_ssts[0].sst_id(), 100);
    assert_eq!(
        entries_of(&new_ssts[0]),
        vec![("a".to_string(), "new".to_string()), ("b".to_string(), "b1".to_string()), ("d".to_string(), "d3".to_string())]
    );
    assert_eq!(removed, vec![2, 1, 3]);
    assert_eq!(inner.state.l0_sstables, Vec::<usize>::new());
    assert_eq!(inner.state.levels[0], (1, vec![100]));
    assert_eq!(inner.state.sstables.len(), 1);
    assert!(inner.state.sstables.contains_key(&100));
    assert_eq!(inner.next_sst_id, 101);
}

#[test]
fn force_full_compaction_of_empty_levels_does_nothing() {
    let mut inner = engine(
        state(vec![], vec![(1, vec![])]),
        CompactionController::NoCompaction,
        CompactionOptions::NoCompaction,
    );
    let (new_ssts, removed) = inner.force_full_compaction(&|_: &[Arc<SsTable>]| true);
    let removed = removed.unwrap();
    assert!(new_ssts.is_empty());
    assert!(removed.is_empty());
    assert_eq!(inner.next_sst_id, 100);
}

#[test]
fn compaction_splits_output_at_the_target_size() {
    let mut s = state(vec![1], vec![(1, vec![])]);
    let entries: Vec<(String, String)> = (0..40).map(|i| (format!("key_{:03}", i), format!("value_{:03}", i))).collect();
    let refs: Vec<(&str, &str)> = entries.iter().map(|(k, v)| (k.as_str(), v.as_str())).collect();
    s.sstables.insert(1, table(1, &refs));
    let mut inner = engine(
        s,
        CompactionController::NoCompaction,
        CompactionOptions::NoCompaction,
    );
    inner.options.target_sst_size = 200;
    let (new_ssts, removed) = inner.force_full_compaction(&|_: &[Arc<SsTable>]| true);
    let removed = removed.unwrap();
    assert!(new_ssts.len() > 1);
    let mut all = Vec::new();
    for (i, t) in new_ssts.iter().enumerate() {
        assert_eq!(t.sst_id(), 100 + i);
        all.extend(entries_of(t));
    }
    assert_eq!(all, entries);
    assert_eq!(removed, vec![1]);
    assert_eq!(inner.next_sst_id, 100 + new_ssts.len());
}

#[test]
fn trigger_compaction_runs_and_installs_a_generated_task() {
    let mut s = state(vec![2, 1], vec![(1, vec![]), (2, vec![]), (3, vec![])]);
    s.sstables.insert(1, table(1, &[("a", "1"), ("k", "")]));
    s.sstables.insert(2, table(2, &[("a", "2"), ("b", "2")]));
    let mut inner = engine(
        s,
        CompactionController::Simple(SimpleLeveledCompactionController::new(simple_options())),
        CompactionOptions::Simple(simple_options()),
    );
    let (task, new_ssts, removed) = inner.trigger_compaction(&|_: &[Arc<SsTable>]| true).unwrap();
    let removed = removed.unwrap();
    assert!(matches!(task, CompactionTask::Simple(_)));
    assert_eq!(new_ssts.len(), 1);
    // Level 1 is not the bottom level: the deletion of "k" is kept.
    assert_eq!(
        entries_of(&new_ssts[0]),
        vec![("a".to_string(), "2".to_string()), ("b".to_string(), "2".to_string()), ("k".to_string(), "".to_string())]
    );
    assert_eq!(removed, vec![2, 1]);
    assert_eq!(inner.state.l0_sstables, Vec::<usize>::new());
    assert_eq!(inner.state.levels[0], (1, vec![100]));
    assert_eq!(inner.state.sstables.len(), 1);
}

#[test]
fn trigger_compaction_installs_nothing_when_the_new_ssts_are_not_persisted() {
    let mut s = state(vec![2, 1], vec![(1, vec![]), (2, vec![]), (3, vec![])]);
    s.sstables.insert(1, table(1, &[("a", "1")]));
    s.sstables.insert(2, table(2, &[("b", "2")]));
    let mut inner = engine(
        s,
        CompactionController::Simple(SimpleLeveledCompactionController::new(simple_options())),
        CompactionOptions::Simple(simple_options()),
    );
    let seen = std::cell::Cell::new(0usize);
    let (_, new_ssts, removed) = inner
        .trigger_compaction(&|ssts: &[Arc<SsTable>]| {
            seen.set(ssts.len());
            false
        })
        .unwrap();
    assert_eq!(seen.get(), new_ssts.len());
    assert!(removed.is_none());
    assert_eq!(inner.state.l0_sstables, vec![2, 1]);
    assert_eq!(inner.state.levels[0], (1, vec![]));
    assert_eq!(inner.state.sstables.len(), 2);
    assert_eq!(inner.next_sst_id, 100 + new_ssts.len());
}

#[test]
fn force_full_compaction_installs_nothing_when_the_new_ssts_are_not_persisted() {
    let mut s = state(vec![1], vec![(1, vec![])]);
    s.sstables.insert(1, table(1, &[("a", "1")]));
    let mut inner = engine(s, CompactionController::NoCompaction, CompactionOptions::NoCompaction);
    let (new_ssts, removed) = inner.force_full_compaction(&|_: &[Arc<SsTable>]| false);
    assert_eq!(new_ssts.len(), 1);
    assert!(removed.is_none());
    assert_eq!(inner.state.l0_sstables, vec![1]);
    assert_eq!(inner.state.levels[0], (1, vec![]));
    assert_eq!(inner.next_sst_id, 101);
}

#[test]
fn trigger_compaction_without_a_task_changes_nothing() {
    let s = state(vec![1], vec![(1, vec![]), (2, vec![]), (3, vec![])]);
    let mut inner = engine(
        s,
        CompactionController::Simple(SimpleLeveledCompactionController::new(simple_options())),
        CompactionOptions::Simple(simple_options()),
    );
    assert!(inner.trigger_compaction(&|_: &[Arc<SsTable>]| true).is_none());
    assert_eq!(inner.state.l0_sstables, vec![1]);
    assert_eq!(inner.next_sst_id, 100);
}

#[test]
fn tiered_trigger_compaction_drops_deletions_at_the_bottom() {
    let mut s = state(vec![], vec![(3, vec![3]), (2, vec![2]), (1, vec![1])]);
    s.sstables.insert(1, table(1, &[("a", "1"), ("b", "1")]));
    s.sstables.insert(2, table(2, &[("b", "")]));
    s.sstables.insert(3, table(3, &[("c", "3")]));
    let mut inner = engine(
        s,
        CompactionController::Tiered(TieredCompactionController::new(tiered_options(200))),
        CompactionOptions::Tiered(tiered_options(200)),
    );
    let (_, new_ssts, removed) = inner.trigger_compaction(&|_: &[Arc<SsTable>]| true).unwrap();
    let removed = removed.unwrap();
    assert_eq!(
        entries_of(&new_ssts[0]),
        vec![("a".to_string(), "1".to_string()), ("c".to_string(), "3".to_string())]
    );
    assert_eq!(removed, vec![3, 2, 1]);
    assert_eq!(inner.state.levels, vec![(100, vec![100])]);
}

#[test]
fn install_compaction_result_updates_the_sst_map() {
    let mut s = state(vec![2, 1], vec![(1, vec![])]);
    s.sstables.insert(1, table(1, &[("a", "1")]));
    s.sstables.insert(2, table(2, &[("b", "2")]));
    let mut inner = engine(s, CompactionController::NoCompaction, CompactionOptions::NoCompaction);
    let task = CompactionTask::ForceFullCompaction { l0_sstables: vec![2, 1], l1_sstables: vec![] };
    let new_sst = table(9, &[("a", "1"), ("b", "2")]);
    let removed = inner.install_compaction_result(&task, &[new_sst], &[9]);
    assert_eq!(removed, vec![2, 1]);
    assert_eq!(inner.state.levels[0], (1, vec![9]));
    assert!(inner.state.sstables.contains_key(&9));
    assert!(!inner.state.sstables.contains_key(&1));
    assert!(!inner.state.sstables.contains_key(&2));
}

#[test]
fn trigger_flush_fires_at_the_memtable_limit() {
    let mut inner = engine(state(vec![], vec![(1, vec![])]), CompactionController::NoCompaction, CompactionOptions::NoCompaction);
    inner.state.imm_memtables = vec![1];
    assert!(!inner.trigger_flush());
    inner.state.imm_memtables = vec![2, 1];
    assert!(inner.trigger_flush());
    inner.state.imm_memtables = vec![3, 2, 1];
    assert!(inner.trigger_flush());
}

#[test]
fn state_clone_copies_ids_and_ssts() {
    let mut s = state(vec![2], vec![(1, vec![3])]);
    s.imm_memtables = vec![7];
    s.sstables.insert(3, table(3, &[("a", "1")]));
    let c = s.clone();
    assert_eq!(c.imm_memtables, vec![7]);
    assert_eq!(c.l0_sstables, vec![2]);
    assert_eq!(c.levels, vec![(1, vec![3])]);
    assert!(c.sstables.contains_key(&3));
}

fn assert_ids_consistent(inner: &LsmStorageInner) {
    let s = &inner.state;
    let mut seen = std::collections::HashSet::new();
    for id in s.l0_sstables.iter().chain(s.levels.iter().flat_map(|(_, ids)| ids.iter())) {
        assert!(s.sstables.contains_key(id), "SST {} is named but not in the map", id);
        assert!(seen.insert(*id), "SST {} is named twice", id);
    }
    for id in s.sstables.keys() {
        assert!(*id < inner.next_sst_id);
    }
}

#[test]
fn repeated_compaction_keeps_every_named_sst_in_the_map() {
    let mut s = state(vec![2, 1], vec![(1, vec![]), (2, vec![]), (3, vec![])]);
    s.sstables.insert(1, table(1, &[("a", "1"), ("c", "1")]));
    s.sstables.insert(2, table(2, &[("b", "2")]));
    let mut inner = engine(
        s,
        CompactionController::Simple(SimpleLeveledCompactionController::new(simple_options())),
        CompactionOptions::Simple(simple_options()),
    );
    inner.next_sst_id = 3;
    assert_ids_consistent(&inner);
    for round in 0..4 {
        // Two fresh level 0 SSTs arrive, then compaction runs until it has nothing to do.
        let a = inner.next_sst_id;
        let b = a + 1;
        inner.state.sstables.insert(a, table(a, &[("a", "x"), ("d", "y")]));
        inner.state.sstables.insert(b, table(b, &[("e", "z")]));
        inner.state.l0_sstables.insert(0, a);
        inner.state.l0_sstables.insert(0, b);
        inner.next_sst_id = b + 1;
        assert_ids_consistent(&inner);
        let mut steps = 0;
        while inner.trigger_compaction(&|_: &[Arc<SsTable>]| true).is_some() {
            assert_ids_consistent(&inner);
            steps += 1;
            assert!(steps < 10, "round {} does not settle", round);
        }
    }
    assert!(inner.state.l0_sstables.len() < 2);
}

#[test]
fn compaction_keeps_the_newest_value_of_each_key() {
    let mut s = state(vec![3, 2], vec![(1, vec![1])]);
    s.sstables.insert(1, table(1, &[("a", "oldest"), ("b", "oldest"), ("c", "oldest")]));
    s.sstables.insert(2, table(2, &[("a", "older"), ("b", "")]));
    s.sstables.insert(3, table(3, &[("a", "newest")]));
    let mut inner = engine(s, CompactionController::NoCompaction, CompactionOptions::NoCompaction);
    let (new_ssts, _) = inner.force_full_compaction(&|_: &[Arc<SsTable>]| true);
    assert_eq!(
        entries_of(&new_ssts[0]),
        vec![("a".to_string(), "newest".to_string()), ("c".to_string(), "oldest".to_string())]
    );
}
