//! Compaction: the strategies that pick which SSTs to merge, and how the result
//! is applied to the storage state.

pub mod key_order;
pub mod leveled;
pub mod simple_leveled;
pub mod state_ids;
pub mod tiered;

pub use leveled::{LeveledCompactionController, LeveledCompactionOptions, LeveledCompactionTask};
pub use simple_leveled::{SimpleLeveledCompactionController, SimpleLeveledCompactionOptions, SimpleLeveledCompactionTask};
pub use tiered::{TieredCompactionController, TieredCompactionOptions, TieredCompactionTask};

use std::collections::HashMap;
use std::sync::Arc;

use crate::block::{encode_spec, lemma_offsets_bytes_len};
use crate::iterators::concat_iterator::{all_entries, tables_entries, tables_wf, SstConcatIterator};
use crate::iterators::merge_iterator::{
    all_inv, lemma_merge_many_keeps, lemma_merge_many_lookup, lemma_merge_many_sorted, lookup_first, merge_many, remainings,
    MergeIterator,
};
use crate::iterators::two_merge_iterator::{
    lemma_merge_entries_keeps, lemma_two_merge_yields, merge_entries, skip_same_head, TwoMergeIterator,
};
use crate::iterators::StorageIterator;
use crate::key::{entries_strictly_sorted, key_lt, lemma_lookup_append, lemma_lookup_below_first, lemma_sorted_drop_first, lookup};
use crate::lsm_storage::{
    append_ids, get_sst, ids_in_map, ids_of, ids_without, insert_all, insert_ssts, lemma_filter_in_map, levels_in_map, levels_view,
    remove_all, remove_ids, removed_present, replace_level_ids, retain_ids_not_in, LsmStorageInner, LsmStorageState,
};
use crate::table::{
    built_from, concat_entries, fresh_sizes, lemma_add_model, lemma_concat_keeps, model_of, size_step, SsTable, SsTableBuilder,
    SsTableIterator,
};
use leveled::{
    lemma_leveled_task_shape, leveled_apply_levels, leveled_apply_ok, leveled_apply_spec, leveled_generate_ok, leveled_task,
    leveled_task_spec,
};
use simple_leveled::{
    apply_levels, lemma_simple_first_trigger_range, lemma_simple_scan_found, simple_apply_ok, simple_apply_spec, simple_first_trigger, simple_generate_ok,
    simple_task_spec,
};
use state_ids::{ids_ok, lemma_full_occ, lemma_generated_occ, lemma_id_after, lemma_install_keeps_ids, lemma_removed_in_map};
use tiered::{
    all_tier_ids, lemma_tiered_task_range, tiered_apply_levels, tiered_apply_spec, tiered_generate_ok, tiered_task, tiered_task_spec,
};
use vstd::prelude::*;
use vstd::slice::slice_to_vec;

verus! {

#[derive(Debug)]
pub enum CompactionTask {
    Leveled(LeveledCompactionTask),
    Tiered(TieredCompactionTask),
    Simple(SimpleLeveledCompactionTask),
    ForceFullCompaction { l0_sstables: Vec<usize>, l1_sstables: Vec<usize> },
}

impl CompactionTask {
    /// The compaction writes into the bottom level, where deletions can be dropped.
    pub open spec fn to_bottom_spec(&self) -> bool {
        match self {
            CompactionTask::ForceFullCompaction { .. } => true,
            CompactionTask::Leveled(task) => task.is_lower_level_bottom_level,
            CompactionTask::Simple(task) => task.is_lower_level_bottom_level,
            CompactionTask::Tiered(task) => task.bottom_tier_included,
        }
    }

    /// Whether the compaction writes into the bottom level.
    pub fn compact_to_bottom_level(&self) -> (r: bool)
        ensures
            r == self.to_bottom_spec(),
            self is ForceFullCompaction ==> r,
            self matches CompactionTask::Leveled(t) ==> r == t.is_lower_level_bottom_level,
            self matches CompactionTask::Simple(t) ==> r == t.is_lower_level_bottom_level,
            self matches CompactionTask::Tiered(t) ==> r == t.bottom_tier_included,
    {
        match self {
            CompactionTask::ForceFullCompaction { .. } => true,
            CompactionTask::Leveled(task) => task.is_lower_level_bottom_level,
            CompactionTask::Simple(task) => task.is_lower_level_bottom_level,
            CompactionTask::Tiered(task) => task.bottom_tier_included,
        }
    }
}

/// A compaction drops deletions only when it writes into the bottom level: a
/// leveled or simple leveled task exactly when its lower level is the bottom
/// level, a tiered task exactly when it takes the bottom tier, and a full
/// compaction always.
pub proof fn lemma_drops_deletions_only_at_bottom(task: CompactionTask)
    ensures
        task is ForceFullCompaction ==> task.to_bottom_spec(),
        task matches CompactionTask::Leveled(t) ==> (task.to_bottom_spec() <==> t.is_lower_level_bottom_level),
        task matches CompactionTask::Simple(t) ==> (task.to_bottom_spec() <==> t.is_lower_level_bottom_level),
        task matches CompactionTask::Tiered(t) ==> (task.to_bottom_spec() <==> t.bottom_tier_included),
{
}

pub enum CompactionController {
    Leveled(LeveledCompactionController),
    Tiered(TieredCompactionController),
    Simple(SimpleLeveledCompactionController),
    NoCompaction,
}

/// What the compaction strategy needs of the state to generate a task; there is no
/// task to generate without compaction.
pub open spec fn generate_ok(c: CompactionController, s: LsmStorageState) -> bool {
    match c {
        CompactionController::Leveled(ctrl) => leveled_generate_ok(ctrl.options_spec(), s),
        CompactionController::Simple(ctrl) => simple_generate_ok(ctrl.options_spec(), s),
        CompactionController::Tiered(ctrl) => tiered_generate_ok(ctrl.options_spec(), s),
        CompactionController::NoCompaction => false,
    }
}

/// The task matches the strategy, and the strategy can apply it to the state.
pub open spec fn apply_ok(c: CompactionController, s: LsmStorageState, task: CompactionTask, output: Seq<usize>, in_recovery: bool) -> bool {
    match (c, task) {
        (CompactionController::Leveled(_), CompactionTask::Leveled(t)) => leveled_apply_ok(s, t, output, in_recovery),
        (CompactionController::Simple(_), CompactionTask::Simple(t)) => simple_apply_ok(s, t),
        (CompactionController::Tiered(_), CompactionTask::Tiered(_)) => true,
        _ => false,
    }
}

/// The task, if any, that the strategy generates on the state.
pub open spec fn generated(c: CompactionController, s: LsmStorageState, r: Option<CompactionTask>) -> bool {
    match (c, r) {
        (CompactionController::Leveled(ctrl), None) => leveled_task_spec(ctrl.options_spec(), s, None),
        (CompactionController::Leveled(ctrl), Some(CompactionTask::Leveled(t))) => leveled_task_spec(ctrl.options_spec(), s, Some(t)),
        (CompactionController::Simple(ctrl), None) => simple_task_spec(ctrl.options_spec(), s, None),
        (CompactionController::Simple(ctrl), Some(CompactionTask::Simple(t))) => simple_task_spec(ctrl.options_spec(), s, Some(t)),
        (CompactionController::Tiered(ctrl), None) => tiered_task_spec(ctrl.options_spec(), s, None),
        (CompactionController::Tiered(ctrl), Some(CompactionTask::Tiered(t))) => tiered_task_spec(ctrl.options_spec(), s, Some(t)),
        _ => false,
    }
}

impl CompactionController {
    /// Generates a compaction task with the strategy.
    pub fn generate_compaction_task(&self, snapshot: &LsmStorageState) -> (r: Option<CompactionTask>)
        requires
            generate_ok(*self, *snapshot),
        ensures
            generated(*self, *snapshot, r),
    {
        match self {
            CompactionController::Leveled(ctrl) => {
                let t = ctrl.generate_compaction_task(snapshot);
                match t {
                    Some(t) => Some(CompactionTask::Leveled(t)),
                    None => None,
                }
            },
            CompactionController::Simple(ctrl) => {
                let t = ctrl.generate_compaction_task(snapshot);
                match t {
                    Some(t) => Some(CompactionTask::Simple(t)),
                    None => None,
                }
            },
            CompactionController::Tiered(ctrl) => {
                let t = ctrl.generate_compaction_task(snapshot);
                match t {
                    Some(t) => Some(CompactionTask::Tiered(t)),
                    None => None,
                }
            },
            CompactionController::NoCompaction => {
                proof {
                    assert(false);
                }
                None
            },
        }
    }

    /// Applies a compaction result with the strategy that generated the task.
    pub fn apply_compaction_result(
        &self,
        snapshot: &LsmStorageState,
        task: &CompactionTask,
        output: &[usize],
        in_recovery: bool,
    ) -> (r: (LsmStorageState, Vec<usize>))
        requires
            apply_ok(*self, *snapshot, *task, output@, in_recovery),
        ensures
            match *task {
                CompactionTask::Leveled(t) => leveled_apply_spec(*snapshot, t, output@, in_recovery, r),
                CompactionTask::Simple(t) => simple_apply_spec(*snapshot, t, output@, r),
                CompactionTask::Tiered(t) => tiered_apply_spec(*snapshot, t, output@, r),
                CompactionTask::ForceFullCompaction { .. } => false,
            },
    {
        match (self, task) {
            (CompactionController::Leveled(ctrl), CompactionTask::Leveled(task)) => {
                ctrl.apply_compaction_result(snapshot, task, output, in_recovery)
            },
            (CompactionController::Simple(ctrl), CompactionTask::Simple(task)) => {
                ctrl.apply_compaction_result(snapshot, task, output)
            },
            (CompactionController::Tiered(ctrl), CompactionTask::Tiered(task)) => {
                ctrl.apply_compaction_result(snapshot, task, output)
            },
            _ => {
                proof {
                    assert(false);
                }
                (snapshot.clone(), Vec::new())
            },
        }
    }

    /// Whether flushed memtables go to level 0 (they form a new tier otherwise).
    pub fn flush_to_l0(&self) -> (r: bool)
        ensures
            r == !(*self is Tiered),
    {
        match self {
            CompactionController::Leveled(_) | CompactionController::Simple(_) | CompactionController::NoCompaction => true,
            CompactionController::Tiered(_) => false,
        }
    }
}

#[derive(Debug, Clone)]
pub enum CompactionOptions {
    /// Leveled compaction with partial compaction and dynamic level support.
    Leveled(LeveledCompactionOptions),
    /// Tiered compaction.
    Tiered(TieredCompactionOptions),
    /// Simple leveled compaction.
    Simple(SimpleLeveledCompactionOptions),
    /// No compaction: always flush to level 0.
    NoCompaction,
}

/// An entry fits the block format: its key is not empty, and key and value are
/// short enough for the two-byte lengths of an entry.
pub open spec fn entry_fits(e: (Seq<u8>, Seq<u8>)) -> bool {
    &&& e.0.len() > 0
    &&& e.0.len() <= 0xffff
    &&& e.1.len() <= 0xffff
}

/// Every entry fits the block format.
pub open spec fn all_fit(es: Seq<(Seq<u8>, Seq<u8>)>) -> bool {
    forall|i: int| 0 <= i < es.len() ==> entry_fits(#[trigger] es[i])
}

/// The entries a compaction keeps: all, but deletions (empty values) when it
/// compacts into the bottom level.
pub open spec fn kept_entries(es: Seq<(Seq<u8>, Seq<u8>)>, compact_to_bottom: bool) -> Seq<(Seq<u8>, Seq<u8>)> {
    es.filter(|e: (Seq<u8>, Seq<u8>)| !(compact_to_bottom && e.1.len() == 0))
}

/// The id handed out `i` ids after `start`.
pub open spec fn id_after(start: usize, i: nat) -> usize
    decreases i,
{
    if i == 0 {
        start
    } else {
        id_after(start, (i - 1) as nat).wrapping_add(1)
    }
}

/// How the builder splits entries into SSTs, going on from an SST with sizes `st`
/// holding `part`: each entry is added, and the SST is finished once its
/// finished blocks and one more block reach the target size.
pub open spec fn split_rest(
    es: Seq<(Seq<u8>, Seq<u8>)>,
    st: (int, int, int, Seq<u8>),
    part: Seq<(Seq<u8>, Seq<u8>)>,
    block_size: int,
    target: int,
) -> Seq<Seq<(Seq<u8>, Seq<u8>)>>
    decreases es.len(),
{
    if es.len() == 0 {
        if part.len() > 0 { seq![part] } else { Seq::empty() }
    } else {
        let st2 = size_step(st, es[0].0, es[0].1, block_size);
        let part2 = part.push(es[0]);
        if st2.0 + block_size >= target {
            seq![part2] + split_rest(es.drop_first(), fresh_sizes(), Seq::empty(), block_size, target)
        } else {
            split_rest(es.drop_first(), st2, part2, block_size, target)
        }
    }
}

/// Splitting goes on entry by entry: the SST being built takes the next entry,
/// and is finished if that brings it to the target size.
proof fn lemma_split_step(
    done: Seq<Seq<(Seq<u8>, Seq<u8>)>>,
    e: (Seq<u8>, Seq<u8>),
    rest: Seq<(Seq<u8>, Seq<u8>)>,
    st: (int, int, int, Seq<u8>),
    part: Seq<(Seq<u8>, Seq<u8>)>,
    block_size: int,
    target: int,
)
    ensures
        ({
            let st2 = size_step(st, e.0, e.1, block_size);
            let whole = done + split_rest(seq![e] + rest, st, part, block_size, target);
            if st2.0 + block_size >= target {
                whole == done.push(part.push(e)) + split_rest(rest, fresh_sizes(), Seq::empty(), block_size, target)
            } else {
                whole == done + split_rest(rest, st2, part.push(e), block_size, target)
            }
        }),
{
    let es = seq![e] + rest;
    assert(es[0] == e);
    assert(es.drop_first() =~= rest);
    let st2 = size_step(st, e.0, e.1, block_size);
    if st2.0 + block_size >= target {
        let tail = split_rest(rest, fresh_sizes(), Seq::empty(), block_size, target);
        assert(done + (seq![part.push(e)] + tail) =~= done.push(part.push(e)) + tail);
    }
}

/// The entries of the SSTs that splitting makes are the entries split, after
/// those of the SST being built.
proof fn lemma_split_concat(
    es: Seq<(Seq<u8>, Seq<u8>)>,
    st: (int, int, int, Seq<u8>),
    part: Seq<(Seq<u8>, Seq<u8>)>,
    block_size: int,
    target: int,
)
    ensures
        concat_entries(split_rest(es, st, part, block_size, target)) == part + es,
    decreases es.len(),
{
    if es.len() == 0 {
        if part.len() > 0 {
            assert(seq![part].drop_last() =~= Seq::<Seq<(Seq<u8>, Seq<u8>)>>::empty());
            assert(concat_entries(Seq::<Seq<(Seq<u8>, Seq<u8>)>>::empty()) =~= Seq::<(Seq<u8>, Seq<u8>)>::empty());
            assert(concat_entries(seq![part]) =~= part + es);
        } else {
            assert(part + es =~= Seq::<(Seq<u8>, Seq<u8>)>::empty());
        }
    } else {
        let e = es[0];
        let rest = es.drop_first();
        let st2 = size_step(st, e.0, e.1, block_size);
        assert(part.push(e) + rest =~= part + es);
        if st2.0 + block_size >= target {
            let tail = split_rest(rest, fresh_sizes(), Seq::empty(), block_size, target);
            lemma_split_concat(rest, fresh_sizes(), Seq::empty(), block_size, target);
            lemma_concat_prepend(part.push(e), tail);
            assert(Seq::<(Seq<u8>, Seq<u8>)>::empty() + rest =~= rest);
        } else {
            lemma_split_concat(rest, st2, part.push(e), block_size, target);
        }
    }
}

/// The entries of a first part and then more parts.
proof fn lemma_concat_prepend(a: Seq<(Seq<u8>, Seq<u8>)>, bs: Seq<Seq<(Seq<u8>, Seq<u8>)>>)
    ensures
        concat_entries(seq![a] + bs) == a + concat_entries(bs),
    decreases bs.len(),
{
    if bs.len() == 0 {
        assert(seq![a] + bs =~= seq![a]);
        assert(seq![a].drop_last() =~= Seq::<Seq<(Seq<u8>, Seq<u8>)>>::empty());
        assert(concat_entries(Seq::<Seq<(Seq<u8>, Seq<u8>)>>::empty()) =~= Seq::<(Seq<u8>, Seq<u8>)>::empty());
        assert(concat_entries(seq![a]) =~= a);
        assert(a + concat_entries(bs) =~= a);
    } else {
        lemma_concat_prepend(a, bs.drop_last());
        assert((seq![a] + bs).drop_last() =~= seq![a] + bs.drop_last());
        assert((seq![a] + bs).last() == bs.last());
        assert(concat_entries(seq![a] + bs) =~= a + concat_entries(bs));
    }
}

/// The SST being built is sound, with the block size of the options, has not
/// reached the target size with finished blocks alone, and holds what adding its
/// entries to a fresh builder gives.
pub open spec fn builder_ok(b: SsTableBuilder, o: crate::lsm_storage::LsmStorageOptions) -> bool {
    &&& b.sound()
    &&& b.block_size_spec() == o.block_size
    &&& b.data_spec().len() == 0 || b.data_spec().len() + o.block_size < o.target_sst_size
    &&& b.model() == model_of(b.entries(), o.block_size as int)
}

/// The entries of each SST that the builder makes of `es`, with the given block
/// size and target SST size.
pub open spec fn split_ssts(es: Seq<(Seq<u8>, Seq<u8>)>, block_size: int, target: int) -> Seq<Seq<(Seq<u8>, Seq<u8>)>> {
    split_rest(es, fresh_sizes(), Seq::empty(), block_size, target)
}

/// The SSTs hold `es`, one after the other, split where the builder reaches the
/// target SST size of the options, and each is the SST that a builder with the
/// block size of the options makes of its entries.
pub open spec fn outputs_hold(outputs: Seq<Arc<SsTable>>, es: Seq<(Seq<u8>, Seq<u8>)>, o: crate::lsm_storage::LsmStorageOptions) -> bool {
    &&& all_entries(outputs) == es
    &&& tables_entries(outputs) == split_ssts(es, o.block_size as int, o.target_sst_size as int)
    &&& outputs_built(outputs, o.block_size as int)
}

/// Each SST is the one that a builder with the block size makes of its entries.
#[verifier::opaque]
pub open spec fn outputs_built(outputs: Seq<Arc<SsTable>>, block_size: int) -> bool {
    forall|i: int| 0 <= i < outputs.len() ==> built_from(*#[trigger] outputs[i], model_of(outputs[i].entries(), block_size))
}

/// Appending the SST a builder makes of its entries keeps each SST so.
proof fn lemma_outputs_built_push(outputs: Seq<Arc<SsTable>>, t: Arc<SsTable>, block_size: int)
    requires
        outputs_built(outputs, block_size),
        built_from(*t, model_of(t.entries(), block_size)),
    ensures
        outputs_built(outputs.push(t), block_size),
{
    reveal(outputs_built);
    let out = outputs.push(t);
    assert forall|i: int| 0 <= i < out.len() implies built_from(*#[trigger] out[i], model_of(out[i].entries(), block_size)) by {
        if i < outputs.len() {
            assert(out[i] == outputs[i]);
        }
    }
}

/// Appending a well-formed SST with an entry and the next id keeps the SSTs so.
proof fn lemma_outputs_ok_push(outputs: Seq<Arc<SsTable>>, t: Arc<SsTable>, start: usize)
    requires
        outputs_ok(outputs, start),
        t.wf(),
        t.entries().len() > 0,
        t.id == id_after(start, outputs.len()),
    ensures
        outputs_ok(outputs.push(t), start),
{
    let out = outputs.push(t);
    assert forall|i: int| 0 <= i < out.len() implies {
        &&& (#[trigger] out[i]).wf()
        &&& out[i].entries().len() > 0
        &&& out[i].id == id_after(start, i as nat)
    } by {
        if i < outputs.len() {
            assert(out[i] == outputs[i]);
        }
    }
}

/// The SSTs are well formed, hold an entry each, and have consecutive ids from `start`.
pub open spec fn outputs_ok(outputs: Seq<Arc<SsTable>>, start: usize) -> bool {
    forall|i: int| 0 <= i < outputs.len() ==> {
        &&& (#[trigger] outputs[i]).wf()
        &&& outputs[i].entries().len() > 0
        &&& outputs[i].id == id_after(start, i as nat)
    }
}

/// The sizes that keep the SST builder's estimates within a `usize`: blocks fit
/// their two-byte offsets and the target SST size leaves room for a block.
pub open spec fn sizes_ok(o: crate::lsm_storage::LsmStorageOptions) -> bool {
    &&& o.block_size <= 0xffff
    &&& o.target_sst_size <= usize::MAX - 0x30000
}

/// The SSTs that `ids` name in the map, in order.
pub open spec fn ids_tables(m: Map<usize, Arc<SsTable>>, ids: Seq<usize>) -> Seq<Arc<SsTable>> {
    Seq::new(ids.len(), |i: int| m[ids[i]])
}

/// The entries of the SSTs of a sorted run, one SST after the other.
pub open spec fn run_entries(m: Map<usize, Arc<SsTable>>, ids: Seq<usize>) -> Seq<(Seq<u8>, Seq<u8>)> {
    all_entries(ids_tables(m, ids))
}

/// The runs that hold an entry, in order.
pub open spec fn nonempty(rs: Seq<Seq<(Seq<u8>, Seq<u8>)>>) -> Seq<Seq<(Seq<u8>, Seq<u8>)>> {
    rs.filter(|r: Seq<(Seq<u8>, Seq<u8>)>| r.len() > 0)
}

/// Merges the upper runs, merges the lower runs, then merges the two, the upper
/// entry winning on equal keys.
pub open spec fn two_level_merge(upper: Seq<Seq<(Seq<u8>, Seq<u8>)>>, lower: Seq<Seq<(Seq<u8>, Seq<u8>)>>) -> Seq<(Seq<u8>, Seq<u8>)> {
    let a = merge_many(nonempty(upper));
    merge_entries(a, skip_same_head(a, merge_many(nonempty(lower))))
}

/// The merged entries of level 0 (each SST a run, the latest first) over level 1.
pub open spec fn l0_merge(m: Map<usize, Arc<SsTable>>, l0: Seq<usize>, l1: Seq<usize>) -> Seq<(Seq<u8>, Seq<u8>)> {
    two_level_merge(tables_entries(ids_tables(m, l0)), seq![run_entries(m, l1)])
}

/// The merged entries of an upper level over a lower level, each a sorted run.
pub open spec fn levels_merge(m: Map<usize, Arc<SsTable>>, upper: Seq<usize>, lower: Seq<usize>) -> Seq<(Seq<u8>, Seq<u8>)> {
    two_level_merge(seq![run_entries(m, upper)], seq![run_entries(m, lower)])
}

/// The entries of each tier, a sorted run.
pub open spec fn tier_runs(m: Map<usize, Arc<SsTable>>, tiers: Seq<(usize, Seq<usize>)>) -> Seq<Seq<(Seq<u8>, Seq<u8>)>> {
    Seq::new(tiers.len(), |i: int| run_entries(m, tiers[i].1))
}

/// The merged entries of tiers, the earlier tier winning on equal keys.
pub open spec fn tiers_merge(m: Map<usize, Arc<SsTable>>, tiers: Seq<(usize, Seq<usize>)>) -> Seq<(Seq<u8>, Seq<u8>)> {
    merge_many(nonempty(tier_runs(m, tiers)))
}

/// The merged entries that a compaction task writes out, before deletions are
/// dropped.
pub open spec fn compaction_entries(m: Map<usize, Arc<SsTable>>, task: CompactionTask) -> Seq<(Seq<u8>, Seq<u8>)> {
    match task {
        CompactionTask::ForceFullCompaction { l0_sstables, l1_sstables } => l0_merge(m, l0_sstables@, l1_sstables@),
        CompactionTask::Simple(t) => if t.upper_level is None {
            l0_merge(m, t.upper_level_sst_ids@, t.lower_level_sst_ids@)
        } else {
            levels_merge(m, t.upper_level_sst_ids@, t.lower_level_sst_ids@)
        },
        CompactionTask::Leveled(t) => if t.upper_level is None {
            l0_merge(m, t.upper_level_sst_ids@, t.lower_level_sst_ids@)
        } else {
            levels_merge(m, t.upper_level_sst_ids@, t.lower_level_sst_ids@)
        },
        CompactionTask::Tiered(t) => tiers_merge(m, levels_view(t.tiers@)),
    }
}

/// Every SST of the map is well formed and holds entries that fit the block format.
pub open spec fn tables_ok(m: Map<usize, Arc<SsTable>>) -> bool {
    forall|id: usize| #[trigger] m.contains_key(id) ==> m[id].wf() && all_fit(m[id].entries())
}

/// Every id the task names is an SST of the map.
pub open spec fn task_ids_in_map(m: Map<usize, Arc<SsTable>>, task: CompactionTask) -> bool {
    match task {
        CompactionTask::ForceFullCompaction { l0_sstables, l1_sstables } => ids_in_map(m, l0_sstables@) && ids_in_map(m, l1_sstables@),
        CompactionTask::Simple(t) => ids_in_map(m, t.upper_level_sst_ids@) && ids_in_map(m, t.lower_level_sst_ids@),
        CompactionTask::Leveled(t) => ids_in_map(m, t.upper_level_sst_ids@) && ids_in_map(m, t.lower_level_sst_ids@),
        CompactionTask::Tiered(t) => levels_in_map(m, levels_view(t.tiers@)),
    }
}

/// Every entry of every run fits the block format.
pub open spec fn runs_fit(rs: Seq<Seq<(Seq<u8>, Seq<u8>)>>) -> bool {
    forall|i: int, j: int| 0 <= i < rs.len() && 0 <= j < rs[i].len() ==> entry_fits(#[trigger] rs[i][j])
}

/// Keeping the runs that hold an entry adds one run at a time.
proof fn lemma_nonempty_push(rs: Seq<Seq<(Seq<u8>, Seq<u8>)>>, r: Seq<(Seq<u8>, Seq<u8>)>)
    ensures
        nonempty(rs.push(r)) == if r.len() > 0 { nonempty(rs).push(r) } else { nonempty(rs) },
{
    reveal(Seq::filter);
    assert(rs.push(r).drop_last() =~= rs);
}

/// Every run kept is one of the given runs.
proof fn lemma_nonempty_fit(rs: Seq<Seq<(Seq<u8>, Seq<u8>)>>)
    requires
        runs_fit(rs),
    ensures
        runs_fit(nonempty(rs)),
    decreases rs.len(),
{
    reveal(Seq::filter);
    if rs.len() > 0 {
        assert(runs_fit(rs.drop_last())) by {
            assert forall|i: int, j: int| 0 <= i < rs.drop_last().len() && 0 <= j < rs.drop_last()[i].len() implies entry_fits(#[trigger] rs.drop_last()[i][j]) by {
                assert(rs.drop_last()[i] == rs[i]);
            }
        }
        lemma_nonempty_fit(rs.drop_last());
        let prev = nonempty(rs.drop_last());
        if rs.last().len() > 0 {
            let out = prev.push(rs.last());
            assert forall|i: int, j: int| 0 <= i < out.len() && 0 <= j < out[i].len() implies entry_fits(#[trigger] out[i][j]) by {
                if i < prev.len() {
                    assert(out[i] == prev[i]);
                } else {
                    assert(out[i] == rs[rs.len() - 1]);
                }
            }
        }
    }
}

/// The entries of merged runs fit the block format when those of the runs do.
proof fn lemma_merge_many_fit(rs: Seq<Seq<(Seq<u8>, Seq<u8>)>>)
    requires
        runs_fit(rs),
    ensures
        all_fit(merge_many(rs)),
{
    let p = |e: (Seq<u8>, Seq<u8>)| entry_fits(e);
    assert forall|i: int, j: int| 0 <= i < rs.len() && 0 <= j < rs[i].len() implies p(#[trigger] rs[i][j]) by {
        assert(entry_fits(rs[i][j]));
    }
    lemma_merge_many_keeps(rs, p);
    assert forall|k: int| 0 <= k < merge_many(rs).len() implies entry_fits(#[trigger] merge_many(rs)[k]) by {
        assert(p(merge_many(rs)[k]));
    }
}

/// The entries of a two-level merge fit the block format when those of the runs do.
proof fn lemma_two_level_fit(upper: Seq<Seq<(Seq<u8>, Seq<u8>)>>, lower: Seq<Seq<(Seq<u8>, Seq<u8>)>>)
    requires
        runs_fit(upper),
        runs_fit(lower),
    ensures
        all_fit(two_level_merge(upper, lower)),
{
    lemma_nonempty_fit(upper);
    lemma_nonempty_fit(lower);
    lemma_merge_many_fit(nonempty(upper));
    lemma_merge_many_fit(nonempty(lower));
    let a = merge_many(nonempty(upper));
    let b = merge_many(nonempty(lower));
    let b2 = skip_same_head(a, b);
    let p = |e: (Seq<u8>, Seq<u8>)| entry_fits(e);
    assert forall|j: int| 0 <= j < a.len() implies p(#[trigger] a[j]) by {
        assert(entry_fits(a[j]));
    }
    assert forall|j: int| 0 <= j < b2.len() implies p(#[trigger] b2[j]) by {
        if a.len() > 0 && b.len() > 0 && a[0].0 == b[0].0 {
            assert(b2[j] == b[j + 1]);
        }
        assert(entry_fits(b2[j]));
    }
    lemma_merge_entries_keeps(a, b2, p);
    let out = two_level_merge(upper, lower);
    assert forall|k: int| 0 <= k < out.len() implies entry_fits(#[trigger] out[k]) by {
        assert(p(out[k]));
    }
}

/// The entries of the SSTs of a sorted run fit the block format.
proof fn lemma_run_fit(m: Map<usize, Arc<SsTable>>, ids: Seq<usize>)
    requires
        tables_ok(m),
        ids_in_map(m, ids),
    ensures
        all_fit(run_entries(m, ids)),
        runs_fit(tables_entries(ids_tables(m, ids))),
        tables_wf(ids_tables(m, ids)),
{
    let ts = ids_tables(m, ids);
    let bs = tables_entries(ts);
    assert forall|i: int, j: int| 0 <= i < bs.len() && 0 <= j < bs[i].len() implies entry_fits(#[trigger] bs[i][j]) by {
        assert(m.contains_key(ids[i]));
        assert(bs[i] == m[ids[i]].entries());
    }
    let p = |e: (Seq<u8>, Seq<u8>)| entry_fits(e);
    assert forall|i: int, j: int| 0 <= i < bs.len() && 0 <= j < bs[i].len() implies p(#[trigger] bs[i][j]) by {
        assert(entry_fits(bs[i][j]));
    }
    lemma_concat_keeps(bs, p);
    assert forall|k: int| 0 <= k < run_entries(m, ids).len() implies entry_fits(#[trigger] run_entries(m, ids)[k]) by {
        assert(p(concat_entries(bs)[k]));
    }
    assert forall|i: int| 0 <= i < ts.len() implies (#[trigger] ts[i]).wf() by {
        assert(m.contains_key(ids[i]));
    }
}

/// A single run fits the block format when its entries do.
proof fn lemma_single_run_fit(r: Seq<(Seq<u8>, Seq<u8>)>)
    requires
        all_fit(r),
    ensures
        runs_fit(seq![r]),
{
    assert forall|i: int, j: int| 0 <= i < seq![r].len() && 0 <= j < seq![r][i].len() implies entry_fits(#[trigger] seq![r][i][j]) by {
        assert(seq![r][i] == r);
    }
}

/// The state's SSTs are all known, well formed, and hold entries that fit the
/// block format.
pub open spec fn storage_ok(s: LsmStorageState) -> bool {
    &&& ids_in_map(s.sstables@, s.l0_sstables@)
    &&& levels_in_map(s.sstables@, s.levels_spec())
    &&& tables_ok(s.sstables@)
}

/// What installing the task needs of the state: a level 1 for a full compaction,
/// else that the strategy can apply the task.
pub open spec fn install_ok(c: CompactionController, s: LsmStorageState, task: CompactionTask, output: Seq<usize>) -> bool {
    match task {
        CompactionTask::ForceFullCompaction { .. } => s.levels@.len() > 0,
        _ => apply_ok(c, s, task, output, false),
    }
}

/// The level 0 ids after the task is applied.
pub open spec fn l0_after(s: LsmStorageState, task: CompactionTask) -> Seq<usize> {
    match task {
        CompactionTask::ForceFullCompaction { l0_sstables, .. } => ids_without(s.l0_sstables@, l0_sstables@),
        CompactionTask::Simple(t) => if t.upper_level is None {
            ids_without(s.l0_sstables@, t.upper_level_sst_ids@)
        } else {
            s.l0_sstables@
        },
        CompactionTask::Leveled(t) => if t.upper_level is None {
            ids_without(s.l0_sstables@, t.upper_level_sst_ids@)
        } else {
            s.l0_sstables@
        },
        CompactionTask::Tiered(_) => s.l0_sstables@,
    }
}

/// The levels after the task is applied with the given output ids.
pub open spec fn levels_after(s: LsmStorageState, task: CompactionTask, output: Seq<usize>) -> Seq<(usize, Seq<usize>)> {
    let lv = s.levels_spec();
    match task {
        CompactionTask::ForceFullCompaction { .. } => lv.update(0, (lv[0].0, output)),
        CompactionTask::Simple(t) => apply_levels(lv, t.upper_level, t.upper_level_sst_ids@, t.lower_level, t.lower_level_sst_ids@, output),
        CompactionTask::Leveled(t) => leveled_apply_levels(
            lv,
            s.sstables@,
            t.upper_level,
            t.upper_level_sst_ids@,
            t.lower_level,
            t.lower_level_sst_ids@,
            output,
            false,
        ),
        CompactionTask::Tiered(t) => tiered_apply_levels(lv, levels_view(t.tiers@), t.bottom_tier_included, output),
    }
}

/// The input SSTs that the task removes: for a full compaction, those of its
/// inputs still in the map; else all of its inputs.
pub open spec fn removed_after(m: Map<usize, Arc<SsTable>>, task: CompactionTask) -> Seq<usize> {
    match task {
        CompactionTask::ForceFullCompaction { l0_sstables, l1_sstables } => removed_present(m, l0_sstables@ + l1_sstables@),
        CompactionTask::Simple(t) => t.upper_level_sst_ids@ + t.lower_level_sst_ids@,
        CompactionTask::Leveled(t) => t.upper_level_sst_ids@ + t.lower_level_sst_ids@,
        CompactionTask::Tiered(t) => all_tier_ids(levels_view(t.tiers@)),
    }
}

/// The SST map after the task is applied: the new SSTs come in, then the
/// removed inputs leave.
pub open spec fn sstables_after(m: Map<usize, Arc<SsTable>>, task: CompactionTask, new_ssts: Seq<Arc<SsTable>>) -> Map<usize, Arc<SsTable>> {
    let base = match task {
        CompactionTask::ForceFullCompaction { l0_sstables, l1_sstables } => remove_ids(m, l0_sstables@ + l1_sstables@),
        _ => m,
    };
    remove_ids(insert_ssts(base, new_ssts), removed_after(m, task))
}

/// A leveled task with no upper input: a level 0 compaction with level 0 empty.
pub open spec fn leveled_without_inputs(task: CompactionTask) -> bool {
    match task {
        CompactionTask::Leveled(t) => t.upper_level_sst_ids@.len() == 0,
        _ => false,
    }
}

/// Merging no runs gives no entry.
proof fn lemma_empty_l0_merge(m: Map<usize, Arc<SsTable>>)
    ensures
        l0_merge(m, Seq::empty(), Seq::empty()).len() == 0,
{
    reveal(Seq::filter);
    let e = Seq::<usize>::empty();
    let none = Seq::<Seq<(Seq<u8>, Seq<u8>)>>::empty();
    assert(tables_entries(ids_tables(m, e)) =~= none);
    assert(run_entries(m, e) =~= Seq::<(Seq<u8>, Seq<u8>)>::empty()) by {
        assert(tables_entries(ids_tables(m, e)) =~= none);
    }
    let one = seq![run_entries(m, e)];
    assert(none.push(run_entries(m, e)) =~= one);
    lemma_nonempty_push(none, run_entries(m, e));
    assert(nonempty(none) =~= none);
    assert(nonempty(one) =~= none);
    assert(merge_many(none) =~= Seq::<(Seq<u8>, Seq<u8>)>::empty());
}

/// A task that a strategy generates names only SSTs of the state, and the
/// strategy can apply it with any output. The one exception is a leveled task
/// without upper inputs, which can only be applied with no output; it has no
/// input at all, so its compaction writes nothing.
pub proof fn lemma_generated_task(c: CompactionController, s: LsmStorageState, task: CompactionTask, output: Seq<usize>)
    requires
        storage_ok(s),
        generate_ok(c, s),
        generated(c, s, Some(task)),
    ensures
        task_ids_in_map(s.sstables@, task),
        !leveled_without_inputs(task) || output.len() == 0 ==> apply_ok(c, s, task, output, false),
        leveled_without_inputs(task) ==> compaction_entries(s.sstables@, task).len() == 0,
{
    let m = s.sstables@;
    let lv = s.levels_spec();
    assert(lv.len() == s.levels@.len());
    match (c, task) {
        (CompactionController::Simple(ctrl), CompactionTask::Simple(t)) => {
            let o = ctrl.options_spec();
            lemma_simple_first_trigger_range(lv, o.size_ratio_percent, o.max_levels as int, 0);
            if s.l0_sstables@.len() < o.level0_file_num_compaction_trigger {
                lemma_simple_scan_found(lv, o.size_ratio_percent, o.max_levels as int, 0);
                let i = simple_first_trigger(lv, o.size_ratio_percent, o.max_levels as int, 0)->0;
                assert(ids_in_map(m, lv[i].1));
                assert(ids_in_map(m, lv[i + 1].1));
            } else {
                assert(ids_in_map(m, lv[0].1));
            }
        },
        (CompactionController::Tiered(ctrl), CompactionTask::Tiered(t)) => {
            let o = ctrl.options_spec();
            lemma_tiered_task_range(lv, o);
            let k = (tiered_task(lv, o)->0).0;
            assert forall|i: int| 0 <= i < lv.take(k).len() implies ids_in_map(m, #[trigger] lv.take(k)[i].1) by {
                assert(lv.take(k)[i] == lv[i]);
            }
        },
        (CompactionController::Leveled(ctrl), CompactionTask::Leveled(t)) => {
            let o = ctrl.options_spec();
            lemma_leveled_task_shape(s.l0_sstables@, lv, m, o);
            let (up, upper_ids, lower, lower_ids, bottom) = leveled_task(s.l0_sstables@, lv, m, o)->0;
            assert(ids_in_map(m, lv[lower - 1].1));
            leveled::lemma_kept_in_map(lv, m, up, upper_ids, lower as usize, lower_ids);
            leveled::lemma_scan_in_map(
                m,
                apply_levels(lv, up, upper_ids, lower as usize, lower_ids, Seq::empty())[lower - 1].1,
                leveled::min_first_key(m, upper_ids),
            );
            if let Some(u) = up {
                assert(ids_in_map(m, lv[u - 1].1));
                assert(m.contains_key(lv[u - 1].1[0]));
                assert(ids_in_map(m, upper_ids));
            }
            if upper_ids.len() == 0 {
                assert(lower_ids =~= Seq::<usize>::empty());
                assert(upper_ids =~= Seq::<usize>::empty());
                lemma_empty_l0_merge(m);
            } else {
                let lo = leveled::min_first_key(m, upper_ids);
                let hi = leveled::max_last_key(m, upper_ids);
                lemma_filter_in_map(m, lv[lower - 1].1, |id: usize| leveled::sst_overlaps(*m[id], lo, hi));
            }
        },
        _ => {},
    }
}

/// The input runs of a compaction task, in order of precedence: each SST of
/// level 0, the latest first, then the sorted run of the level below; or the
/// upper level's run then the lower level's; or each tier's run.
pub open spec fn compaction_runs(m: Map<usize, Arc<SsTable>>, task: CompactionTask) -> Seq<Seq<(Seq<u8>, Seq<u8>)>> {
    let l0_runs = |l0: Seq<usize>, l1: Seq<usize>| tables_entries(ids_tables(m, l0)) + seq![run_entries(m, l1)];
    let level_runs = |upper: Seq<usize>, lower: Seq<usize>| seq![run_entries(m, upper), run_entries(m, lower)];
    match task {
        CompactionTask::ForceFullCompaction { l0_sstables, l1_sstables } => l0_runs(l0_sstables@, l1_sstables@),
        CompactionTask::Simple(t) => if t.upper_level is None {
            l0_runs(t.upper_level_sst_ids@, t.lower_level_sst_ids@)
        } else {
            level_runs(t.upper_level_sst_ids@, t.lower_level_sst_ids@)
        },
        CompactionTask::Leveled(t) => if t.upper_level is None {
            l0_runs(t.upper_level_sst_ids@, t.lower_level_sst_ids@)
        } else {
            level_runs(t.upper_level_sst_ids@, t.lower_level_sst_ids@)
        },
        CompactionTask::Tiered(t) => tier_runs(m, levels_view(t.tiers@)),
    }
}

/// Every run holds entries with strictly increasing keys.
pub open spec fn runs_sorted(rs: Seq<Seq<(Seq<u8>, Seq<u8>)>>) -> bool {
    forall|i: int| 0 <= i < rs.len() ==> entries_strictly_sorted(#[trigger] rs[i])
}

/// What a compaction keeps of a key's value: nothing for a deletion (an empty
/// value) when compacting into the bottom level.
pub open spec fn kept_value(v: Option<Seq<u8>>, compact_to_bottom: bool) -> Option<Seq<u8>> {
    match v {
        Some(x) => if compact_to_bottom && x.len() == 0 { None } else { Some(x) },
        None => None,
    }
}

proof fn lemma_lookup_first_append(a: Seq<Seq<(Seq<u8>, Seq<u8>)>>, b: Seq<Seq<(Seq<u8>, Seq<u8>)>>, k: Seq<u8>)
    ensures
        lookup_first(a + b, k) == if lookup_first(a, k) is Some { lookup_first(a, k) } else { lookup_first(b, k) },
    decreases a.len(),
{
    if a.len() > 0 {
        assert((a + b)[0] == a[0]);
        assert((a + b).drop_first() =~= a.drop_first() + b);
        lemma_lookup_first_append(a.drop_first(), b, k);
    } else {
        assert(a + b =~= b);
    }
}

proof fn lemma_lookup_first_single(r: Seq<(Seq<u8>, Seq<u8>)>, k: Seq<u8>)
    ensures
        lookup_first(seq![r], k) == lookup(r, k),
{
    assert(seq![r].drop_first() =~= Seq::<Seq<(Seq<u8>, Seq<u8>)>>::empty());
    assert(lookup_first(Seq::<Seq<(Seq<u8>, Seq<u8>)>>::empty(), k) is None);
}

/// Runs without entries hold no key.
proof fn lemma_lookup_first_nonempty(rs: Seq<Seq<(Seq<u8>, Seq<u8>)>>, k: Seq<u8>)
    ensures
        lookup_first(nonempty(rs), k) == lookup_first(rs, k),
    decreases rs.len(),
{
    if rs.len() > 0 {
        let init = rs.drop_last();
        let r = rs.last();
        assert(rs =~= init.push(r));
        lemma_nonempty_push(init, r);
        lemma_lookup_first_nonempty(init, k);
        assert(init.push(r) =~= init + seq![r]);
        lemma_lookup_first_append(init, seq![r], k);
        lemma_lookup_first_single(r, k);
        if r.len() > 0 {
            assert(nonempty(init).push(r) =~= nonempty(init) + seq![r]);
            lemma_lookup_first_append(nonempty(init), seq![r], k);
        }
    } else {
        reveal(Seq::filter);
        assert(nonempty(rs) =~= rs);
    }
}

/// The runs kept are sorted when all runs are.
proof fn lemma_nonempty_sorted(rs: Seq<Seq<(Seq<u8>, Seq<u8>)>>)
    requires
        runs_sorted(rs),
    ensures
        runs_sorted(nonempty(rs)),
    decreases rs.len(),
{
    reveal(Seq::filter);
    if rs.len() > 0 {
        let init = rs.drop_last();
        assert(runs_sorted(init)) by {
            assert forall|i: int| 0 <= i < init.len() implies entries_strictly_sorted(#[trigger] init[i]) by {
                assert(init[i] == rs[i]);
            }
        }
        lemma_nonempty_sorted(init);
        let prev = nonempty(init);
        if rs.last().len() > 0 {
            let out = prev.push(rs.last());
            assert forall|i: int| 0 <= i < out.len() implies entries_strictly_sorted(#[trigger] out[i]) by {
                if i < prev.len() {
                    assert(out[i] == prev[i]);
                } else {
                    assert(out[i] == rs[rs.len() - 1]);
                }
            }
        }
    }
}

/// Keeping the entries that satisfy `p` keeps a key's value when its entry
/// satisfies `p`, and drops it otherwise.
proof fn lemma_lookup_filter(es: Seq<(Seq<u8>, Seq<u8>)>, p: spec_fn((Seq<u8>, Seq<u8>)) -> bool, k: Seq<u8>)
    requires
        entries_strictly_sorted(es),
    ensures
        lookup(es.filter(p), k) == match lookup(es, k) {
            Some(v) => if p((k, v)) { Some(v) } else { None },
            None => None,
        },
    decreases es.len(),
{
    if es.len() > 0 {
        let e = es[0];
        let rest = es.drop_first();
        assert(es =~= seq![e] + rest);
        Seq::filter_distributes_over_add(seq![e], rest, p);
        reveal(Seq::filter);
        let none = Seq::<(Seq<u8>, Seq<u8>)>::empty();
        assert(seq![e].drop_last() =~= none);
        assert(none.filter(p) =~= none);
        assert(seq![e].last() == e);
        assert(seq![e].filter(p) =~= if p(e) { seq![e] } else { none });
        lemma_lookup_append(seq![e].filter(p), rest.filter(p), k);
        lemma_sorted_drop_first(es);
        lemma_lookup_filter(rest, p, k);
        assert(es.filter(p) == seq![e].filter(p) + rest.filter(p));
        assert(lookup(none, k) is None);
        assert(seq![e].drop_first() =~= none);
        assert(lookup(seq![e], k) == if e.0 == k { Some(e.1) } else { None::<Seq<u8>> });
        assert(lookup(es, k) == if e.0 == k { Some(e.1) } else { lookup(rest, k) });
        if e.0 == k {
            if rest.len() > 0 {
                assert(key_lt(es[0].0, es[1].0));
                lemma_lookup_below_first(rest, k);
            }
            assert(e == (k, e.1));
        }
    } else {
        reveal(Seq::filter);
    }
}

/// What a two-level merge yields: entries with strictly increasing keys, each
/// key with its value in the first run that holds it, upper runs first.
proof fn lemma_two_level_merge_law(upper: Seq<Seq<(Seq<u8>, Seq<u8>)>>, lower: Seq<Seq<(Seq<u8>, Seq<u8>)>>, k: Seq<u8>)
    requires
        runs_sorted(upper),
        runs_sorted(lower),
    ensures
        entries_strictly_sorted(two_level_merge(upper, lower)),
        lookup(two_level_merge(upper, lower), k) == lookup_first(upper + lower, k),
{
    lemma_nonempty_sorted(upper);
    lemma_nonempty_sorted(lower);
    lemma_merge_many_sorted(nonempty(upper));
    lemma_merge_many_sorted(nonempty(lower));
    lemma_merge_many_lookup(nonempty(upper), k);
    lemma_merge_many_lookup(nonempty(lower), k);
    lemma_lookup_first_nonempty(upper, k);
    lemma_lookup_first_nonempty(lower, k);
    lemma_two_merge_yields(merge_many(nonempty(upper)), merge_many(nonempty(lower)), k);
    lemma_lookup_first_append(upper, lower, k);
}

/// A compaction keeps, for each key, the newest value: its value in the first
/// input run that holds it, the runs taken in order of precedence; a deletion
/// (an empty value) is dropped only when compacting into the bottom level. The
/// merged entries come out with strictly increasing keys.
pub proof fn lemma_compaction_keeps_newest(m: Map<usize, Arc<SsTable>>, task: CompactionTask, k: Seq<u8>)
    requires
        runs_sorted(compaction_runs(m, task)),
    ensures
        entries_strictly_sorted(compaction_entries(m, task)),
        lookup(kept_entries(compaction_entries(m, task), task.to_bottom_spec()), k)
            == kept_value(lookup_first(compaction_runs(m, task), k), task.to_bottom_spec()),
{
    let runs = compaction_runs(m, task);
    match task {
        CompactionTask::ForceFullCompaction { l0_sstables, l1_sstables } => {
            let a = tables_entries(ids_tables(m, l0_sstables@));
            let b = seq![run_entries(m, l1_sstables@)];
            assert forall|i: int| 0 <= i < a.len() implies entries_strictly_sorted(#[trigger] a[i]) by {
                assert(a[i] == runs[i]);
            }
            assert(b[0] == runs[a.len() as int]);
            lemma_two_level_merge_law(a, b, k);
        },
        CompactionTask::Simple(t) => {
            if t.upper_level is None {
                let a = tables_entries(ids_tables(m, t.upper_level_sst_ids@));
                let b = seq![run_entries(m, t.lower_level_sst_ids@)];
                assert forall|i: int| 0 <= i < a.len() implies entries_strictly_sorted(#[trigger] a[i]) by {
                    assert(a[i] == runs[i]);
                }
                assert(b[0] == runs[a.len() as int]);
                lemma_two_level_merge_law(a, b, k);
            } else {
                let a = seq![run_entries(m, t.upper_level_sst_ids@)];
                let b = seq![run_entries(m, t.lower_level_sst_ids@)];
                assert(a[0] == runs[0]);
                assert(b[0] == runs[1]);
                assert(a + b =~= runs);
                lemma_two_level_merge_law(a, b, k);
            }
        },
        CompactionTask::Leveled(t) => {
            if t.upper_level is None {
                let a = tables_entries(ids_tables(m, t.upper_level_sst_ids@));
                let b = seq![run_entries(m, t.lower_level_sst_ids@)];
                assert forall|i: int| 0 <= i < a.len() implies entries_strictly_sorted(#[trigger] a[i]) by {
                    assert(a[i] == runs[i]);
                }
                assert(b[0] == runs[a.len() as int]);
                lemma_two_level_merge_law(a, b, k);
            } else {
                let a = seq![run_entries(m, t.upper_level_sst_ids@)];
                let b = seq![run_entries(m, t.lower_level_sst_ids@)];
                assert(a[0] == runs[0]);
                assert(b[0] == runs[1]);
                assert(a + b =~= runs);
                lemma_two_level_merge_law(a, b, k);
            }
        },
        CompactionTask::Tiered(t) => {
            lemma_nonempty_sorted(runs);
            lemma_merge_many_sorted(nonempty(runs));
            lemma_merge_many_lookup(nonempty(runs), k);
            lemma_lookup_first_nonempty(runs, k);
        },
    }
    let es = compaction_entries(m, task);
    let bottom = task.to_bottom_spec();
    lemma_lookup_filter(es, |e: (Seq<u8>, Seq<u8>)| !(bottom && e.1.len() == 0), k);
}

/// Inserting SSTs that are well formed and hold fitting entries keeps every SST
/// of the map so.
proof fn lemma_insert_ssts_ok(m: Map<usize, Arc<SsTable>>, ssts: Seq<Arc<SsTable>>)
    requires
        tables_ok(m),
        forall|i: int| 0 <= i < ssts.len() ==> (#[trigger] ssts[i]).wf() && all_fit(ssts[i].entries()),
    ensures
        tables_ok(insert_ssts(m, ssts)),
    decreases ssts.len(),
{
    if ssts.len() > 0 {
        let init = ssts.drop_last();
        assert forall|i: int| 0 <= i < init.len() implies (#[trigger] init[i]).wf() && all_fit(init[i].entries()) by {
            assert(init[i] == ssts[i]);
        }
        lemma_insert_ssts_ok(m, init);
        assert(ssts.last() == ssts[ssts.len() - 1]);
    }
}

/// Removing SSTs keeps every SST of the map well formed with fitting entries.
proof fn lemma_remove_ids_ok(m: Map<usize, Arc<SsTable>>, ids: Seq<usize>)
    requires
        tables_ok(m),
    ensures
        tables_ok(remove_ids(m, ids)),
    decreases ids.len(),
{
    if ids.len() > 0 {
        lemma_remove_ids_ok(m, ids.drop_last());
    }
}

/// Entries that fit still fit once deletions are dropped.
proof fn lemma_kept_fit(es: Seq<(Seq<u8>, Seq<u8>)>, compact_to_bottom: bool)
    requires
        all_fit(es),
    ensures
        all_fit(kept_entries(es, compact_to_bottom)),
{
    let pred = |e: (Seq<u8>, Seq<u8>)| !(compact_to_bottom && e.1.len() == 0);
    lemma_filter_fit(es, pred);
}

proof fn lemma_filter_fit(es: Seq<(Seq<u8>, Seq<u8>)>, pred: spec_fn((Seq<u8>, Seq<u8>)) -> bool)
    requires
        all_fit(es),
    ensures
        all_fit(es.filter(pred)),
    decreases es.len(),
{
    reveal(Seq::filter);
    if es.len() > 0 {
        let init = es.drop_last();
        assert(all_fit(init)) by {
            assert forall|i: int| 0 <= i < init.len() implies entry_fits(#[trigger] init[i]) by {
                assert(init[i] == es[i]);
            }
        }
        lemma_filter_fit(init, pred);
        let prev = init.filter(pred);
        if pred(es.last()) {
            let out = prev.push(es.last());
            assert forall|i: int| 0 <= i < out.len() implies entry_fits(#[trigger] out[i]) by {
                if i < prev.len() {
                    assert(out[i] == prev[i]);
                } else {
                    assert(out[i] == es[es.len() - 1]);
                }
            }
        }
    }
}

/// The merged entries of a task over known SSTs that hold fitting entries fit.
proof fn lemma_compaction_entries_fit(m: Map<usize, Arc<SsTable>>, task: CompactionTask)
    requires
        tables_ok(m),
        task_ids_in_map(m, task),
    ensures
        all_fit(compaction_entries(m, task)),
{
    match task {
        CompactionTask::ForceFullCompaction { l0_sstables, l1_sstables } => {
            lemma_run_fit(m, l0_sstables@);
            lemma_run_fit(m, l1_sstables@);
            lemma_single_run_fit(run_entries(m, l1_sstables@));
            lemma_two_level_fit(tables_entries(ids_tables(m, l0_sstables@)), seq![run_entries(m, l1_sstables@)]);
        },
        CompactionTask::Simple(t) => {
            let (u, l) = (t.upper_level_sst_ids@, t.lower_level_sst_ids@);
            lemma_run_fit(m, u);
            lemma_run_fit(m, l);
            lemma_single_run_fit(run_entries(m, u));
            lemma_single_run_fit(run_entries(m, l));
            lemma_two_level_fit(tables_entries(ids_tables(m, u)), seq![run_entries(m, l)]);
            lemma_two_level_fit(seq![run_entries(m, u)], seq![run_entries(m, l)]);
        },
        CompactionTask::Leveled(t) => {
            let (u, l) = (t.upper_level_sst_ids@, t.lower_level_sst_ids@);
            lemma_run_fit(m, u);
            lemma_run_fit(m, l);
            lemma_single_run_fit(run_entries(m, u));
            lemma_single_run_fit(run_entries(m, l));
            lemma_two_level_fit(tables_entries(ids_tables(m, u)), seq![run_entries(m, l)]);
            lemma_two_level_fit(seq![run_entries(m, u)], seq![run_entries(m, l)]);
        },
        CompactionTask::Tiered(t) => {
            let tv = levels_view(t.tiers@);
            let runs = tier_runs(m, tv);
            assert forall|i: int, j: int| 0 <= i < runs.len() && 0 <= j < runs[i].len() implies entry_fits(#[trigger] runs[i][j]) by {
                assert(ids_in_map(m, tv[i].1));
                lemma_run_fit(m, tv[i].1);
            }
            lemma_nonempty_fit(runs);
            lemma_merge_many_fit(nonempty(runs));
        },
    }
}

/// Each output SST holds entries that fit when the entries written out do.
proof fn lemma_outputs_fit(outputs: Seq<Arc<SsTable>>, es: Seq<(Seq<u8>, Seq<u8>)>)
    requires
        all_entries(outputs) == es,
        all_fit(es),
    ensures
        forall|i: int| 0 <= i < outputs.len() ==> all_fit((#[trigger] outputs[i]).entries()),
{
    let tes = tables_entries(outputs);
    assert forall|i: int| 0 <= i < outputs.len() implies all_fit((#[trigger] outputs[i]).entries()) by {
        assert forall|j: int| 0 <= j < outputs[i].entries().len() implies entry_fits(#[trigger] outputs[i].entries()[j]) by {
            assert(tes[i] == outputs[i].entries());
            crate::table::lemma_concat_index(tes, i, j);
        }
    }
}

/// The SSTs with the given ids, in order.
fn tables_of(sstables: &HashMap<usize, Arc<SsTable>>, ids: &[usize]) -> (r: Vec<Arc<SsTable>>)
    requires
        ids_in_map(sstables@, ids@),
    ensures
        r@ == ids_tables(sstables@, ids@),
{
    let mut r: Vec<Arc<SsTable>> = Vec::new();
    let mut i: usize = 0;
    while i < ids.len()
        invariant
            i <= ids@.len(),
            ids_in_map(sstables@, ids@),
            r@ == ids_tables(sstables@, ids@.take(i as int)),
        decreases ids@.len() - i,
    {
        let t = Arc::clone(get_sst(sstables, ids[i]));
        r.push(t);
        i = i + 1;
        proof {
            assert(r@ =~= ids_tables(sstables@, ids@.take(i as int)));
        }
    }
    proof {
        assert(ids@.take(ids@.len() as int) =~= ids@);
    }
    r
}

/// The iterators over a sorted run of SSTs: one when the run holds an entry,
/// none otherwise.
fn run_iters(tables: Vec<Arc<SsTable>>) -> (r: Vec<SstConcatIterator>)
    requires
        tables_wf(tables@),
    ensures
        all_inv(r@),
        remainings(r@) == nonempty(seq![all_entries(tables@)]),
{
    let ghost run = all_entries(tables@);
    let mut iters: Vec<SstConcatIterator> = Vec::new();
    proof {
        lemma_nonempty_push(Seq::empty(), run);
        assert(Seq::<Seq<(Seq<u8>, Seq<u8>)>>::empty().push(run) =~= seq![run]);
        reveal(Seq::filter);
        assert(nonempty(Seq::<Seq<(Seq<u8>, Seq<u8>)>>::empty()) =~= Seq::<Seq<(Seq<u8>, Seq<u8>)>>::empty());
    }
    if tables.len() > 0 {
        let iter = SstConcatIterator::create_and_seek_to_first(tables);
        if iter.is_valid() {
            iters.push(iter);
        }
    } else {
        assert(tables_entries(tables@) =~= Seq::<Seq<(Seq<u8>, Seq<u8>)>>::empty());
    }
    proof {
        assert(remainings(iters@) =~= nonempty(seq![run]));
    }
    iters
}

/// The ids of the SSTs, in order.
fn sst_ids(ssts: &[Arc<SsTable>]) -> (r: Vec<usize>)
    ensures
        r@ == ids_of(ssts@),
{
    let mut r: Vec<usize> = Vec::new();
    let mut i: usize = 0;
    while i < ssts.len()
        invariant
            i <= ssts@.len(),
            r@ == ids_of(ssts@.take(i as int)),
        decreases ssts@.len() - i,
    {
        r.push(ssts[i].sst_id());
        i = i + 1;
        proof {
            assert(r@ =~= ids_of(ssts@.take(i as int)));
        }
    }
    proof {
        assert(ssts@.take(ssts@.len() as int) =~= ssts@);
    }
    r
}

impl LsmStorageInner {
    /// Hands out the next SST id.
    fn next_sst_id(&mut self) -> (r: usize)
        ensures
            r == old(self).next_sst_id,
            final(self).next_sst_id == old(self).next_sst_id.wrapping_add(1),
            final(self).state == old(self).state,
            final(self).options == old(self).options,
            final(self).compaction_controller == old(self).compaction_controller,
    {
        let id = self.next_sst_id;
        self.next_sst_id = self.next_sst_id.wrapping_add(1);
        id
    }

    /// Adds an entry to the SST being built, and finishes that SST once its
    /// estimated size reaches the target.
    #[verifier::spinoff_prover]
    #[verifier::rlimit(60)]
    fn add_to_ssts(
        &mut self,
        builder: &mut SsTableBuilder,
        outputs: &mut Vec<Arc<SsTable>>,
        key: &[u8],
        value: &[u8],
        Ghost(start): Ghost<usize>,
        Ghost(rest): Ghost<Seq<(Seq<u8>, Seq<u8>)>>,
    )
        requires
            builder_ok(*old(builder), old(self).options),
            sizes_ok(old(self).options),
            entry_fits((key@, value@)),
            outputs_ok(old(outputs)@, start),
            old(self).next_sst_id == id_after(start, old(outputs)@.len()),
            outputs_built(old(outputs)@, old(self).options.block_size as int),
        ensures
            builder_ok(*final(builder), final(self).options),
            outputs_ok(final(outputs)@, start),
            final(self).next_sst_id == id_after(start, final(outputs)@.len()),
            outputs_built(final(outputs)@, final(self).options.block_size as int),
            final(self).state == old(self).state,
            final(self).options == old(self).options,
            final(self).compaction_controller == old(self).compaction_controller,
            ({
                let bs = old(self).options.block_size as int;
                let target = old(self).options.target_sst_size as int;
                tables_entries(final(outputs)@) + split_rest(rest, final(builder).sizes(), final(builder).entries(), bs, target)
                    == tables_entries(old(outputs)@) + split_rest(seq![(key@, value@)] + rest, old(builder).sizes(), old(builder).entries(), bs, target)
            }),
    {
        let block_size = self.options.block_size;
        let ghost b0 = *builder;
        let ghost out0 = outputs@;
        let ghost bs = block_size as int;
        let ghost target = self.options.target_sst_size as int;
        proof {
            builder.lemma_sound();
            lemma_split_step(tables_entries(out0), (key@, value@), rest, b0.sizes(), b0.entries(), bs, target);
        }
        builder.add(key, value);
        proof {
            let cur = b0.current();
            lemma_offsets_bytes_len(cur.offsets_spec());
            assert(encode_spec(cur.data_spec(), cur.offsets_spec()).len() <= 0x30000);
            assert(builder.sizes() == size_step(b0.sizes(), key@, value@, bs));
            lemma_add_model(b0, *builder, key@, value@);
            assert(b0.entries().push((key@, value@)).drop_last() =~= b0.entries());
        }
        if builder.estimated_size() >= self.options.target_sst_size {
            let sst_id = self.next_sst_id();
            let mut old_builder = SsTableBuilder::new(block_size);
            std::mem::swap(builder, &mut old_builder);
            let sst = old_builder.build(sst_id);
            let sst = Arc::new(sst);
            proof {
                lemma_outputs_built_push(out0, sst, bs);
                lemma_outputs_ok_push(out0, sst, start);
            }
            outputs.push(sst);
            proof {
                assert(builder.entries() =~= Seq::<(Seq<u8>, Seq<u8>)>::empty());
                assert(tables_entries(outputs@) =~= tables_entries(out0).push(sst.entries()));
            }
        }
    }

    /// Builds SSTs from the entries of the iterator, starting a new SST when the
    /// estimated size reaches the target; deletions are dropped only when
    /// compacting into the bottom level.
    fn build_ssts_from_iter<I: StorageIterator>(&mut self, iter: I, compact_to_bottom: bool) -> (outputs: Vec<Arc<SsTable>>)
        requires
            iter.inv(),
            all_fit(iter.remaining()),
            sizes_ok(old(self).options),
        ensures
            outputs_ok(outputs@, old(self).next_sst_id),
            outputs_hold(outputs@, kept_entries(iter.remaining(), compact_to_bottom), old(self).options),
            final(self).next_sst_id == id_after(old(self).next_sst_id, outputs@.len()),
            final(self).state == old(self).state,
            final(self).options == old(self).options,
            final(self).compaction_controller == old(self).compaction_controller,
    {
        let ghost orig = iter.remaining();
        let ghost start_id = self.next_sst_id;
        let mut iter = iter;
        let mut outputs: Vec<Arc<SsTable>> = Vec::new();
        let block_size = self.options.block_size;
        let mut builder = SsTableBuilder::new(block_size);
        let ghost mut pos: int = 0;
        let ghost bs = block_size as int;
        let ghost target = self.options.target_sst_size as int;
        let ghost splits = split_ssts(kept_entries(orig, compact_to_bottom), bs, target);
        proof {
            assert(orig.skip(0) =~= orig);
            assert(tables_entries(outputs@) =~= Seq::<Seq<(Seq<u8>, Seq<u8>)>>::empty());
            assert(Seq::<Seq<(Seq<u8>, Seq<u8>)>>::empty() + splits =~= splits);
            reveal(outputs_built);
        }
        while iter.is_valid()
            invariant
                iter.inv(),
                all_fit(orig),
                0 <= pos <= orig.len(),
                iter.remaining() == orig.skip(pos),
                sizes_ok(self.options),
                block_size == self.options.block_size,
                bs == block_size,
                target == self.options.target_sst_size,
                builder_ok(builder, self.options),
                outputs_ok(outputs@, start_id),
                self.next_sst_id == id_after(start_id, outputs@.len()),
                outputs_built(outputs@, bs),
                splits == split_ssts(kept_entries(orig, compact_to_bottom), bs, target),
                tables_entries(outputs@) + split_rest(kept_entries(orig.skip(pos), compact_to_bottom), builder.sizes(), builder.entries(), bs, target) == splits,
                self.state == old(self).state,
                self.options == old(self).options,
                self.compaction_controller == old(self).compaction_controller,
            decreases orig.len() - pos,
        {
            let key = iter.key();
            let value = iter.value();
            let ghost e = orig[pos];
            let ghost rest = orig.skip(pos + 1);
            let ghost keep = |x: (Seq<u8>, Seq<u8>)| !(compact_to_bottom && x.1.len() == 0);
            proof {
                assert(orig.skip(pos)[0] == orig[pos]);
                assert(entry_fits(orig[pos]));
                assert(orig.skip(pos) =~= seq![e] + rest);
                rest.lemma_filter_prepend(e, keep);
            }
            if !(compact_to_bottom && value.len() == 0) {
                self.add_to_ssts(&mut builder, &mut outputs, key, value, Ghost(start_id), Ghost(kept_entries(rest, compact_to_bottom)));
            } else {
                proof {
                    assert(kept_entries(orig.skip(pos), compact_to_bottom) =~= kept_entries(rest, compact_to_bottom));
                }
            }
            iter.next();
            proof {
                pos = pos + 1;
                assert(orig.skip(pos - 1).drop_first() =~= orig.skip(pos));
            }
        }
        proof {
            assert(orig.skip(pos) =~= Seq::<(Seq<u8>, Seq<u8>)>::empty());
            reveal(Seq::filter);
            assert(kept_entries(orig.skip(pos), compact_to_bottom) =~= Seq::<(Seq<u8>, Seq<u8>)>::empty());
        }
        let ghost t0 = tables_entries(outputs@);
        let ghost out0 = outputs@;
        let ghost last_entries = builder.entries();
        proof {
            builder.lemma_sound();
        }
        if !builder.is_empty() {
            let sst_id = self.next_sst_id();
            let sst = builder.build(sst_id);
            let sst = Arc::new(sst);
            proof {
                lemma_outputs_built_push(out0, sst, bs);
                lemma_outputs_ok_push(out0, sst, start_id);
            }
            outputs.push(sst);
            proof {
                assert(tables_entries(outputs@) =~= t0 + seq![last_entries]);
            }
        } else {
            proof {
                assert(t0 + Seq::<Seq<(Seq<u8>, Seq<u8>)>>::empty() =~= t0);
            }
        }
        proof {
            lemma_split_concat(kept_entries(orig, compact_to_bottom), fresh_sizes(), Seq::empty(), bs, target);
            assert(Seq::<(Seq<u8>, Seq<u8>)>::empty() + kept_entries(orig, compact_to_bottom) =~= kept_entries(orig, compact_to_bottom));
        }
        outputs
    }

    /// Compacts level 0 into level 1: the level 0 SSTs are merged with the latest
    /// winning, then merged over the sorted run of level 1.
    fn compact_l0_to_l1(&mut self, l0_sstables: &[usize], l1_sstables: &[usize], compact_to_bottom: bool) -> (outputs: Vec<Arc<SsTable>>)
        requires
            tables_ok(old(self).state.sstables@),
            ids_in_map(old(self).state.sstables@, l0_sstables@),
            ids_in_map(old(self).state.sstables@, l1_sstables@),
            sizes_ok(old(self).options),
        ensures
            outputs_ok(outputs@, old(self).next_sst_id),
            outputs_hold(outputs@, kept_entries(l0_merge(old(self).state.sstables@, l0_sstables@, l1_sstables@), compact_to_bottom), old(self).options),
            final(self).next_sst_id == id_after(old(self).next_sst_id, outputs@.len()),
            final(self).state == old(self).state,
            final(self).options == old(self).options,
            final(self).compaction_controller == old(self).compaction_controller,
    {
        let ghost m = self.state.sstables@;
        let ghost runs = tables_entries(ids_tables(m, l0_sstables@));
        let mut l0_iters: Vec<SsTableIterator> = Vec::new();
        let mut i: usize = 0;
        proof {
            reveal(Seq::filter);
            assert(tables_entries(ids_tables(m, l0_sstables@.take(0))) =~= Seq::<Seq<(Seq<u8>, Seq<u8>)>>::empty());
            assert(remainings(l0_iters@) =~= nonempty(tables_entries(ids_tables(m, l0_sstables@.take(0)))));
        }
        while i < l0_sstables.len()
            invariant
                i <= l0_sstables@.len(),
                m == self.state.sstables@,
                tables_ok(m),
                ids_in_map(m, l0_sstables@),
                all_inv(l0_iters@),
                remainings(l0_iters@) == nonempty(tables_entries(ids_tables(m, l0_sstables@.take(i as int)))),
            decreases l0_sstables@.len() - i,
        {
            let table = Arc::clone(get_sst(&self.state.sstables, l0_sstables[i]));
            assert(m.contains_key(l0_sstables@[i as int]));
            let iter = SsTableIterator::create_and_seek_to_first(table);
            let ghost before = l0_iters@;
            proof {
                let prev = tables_entries(ids_tables(m, l0_sstables@.take(i as int)));
                assert(tables_entries(ids_tables(m, l0_sstables@.take(i + 1))) =~= prev.push(iter.remaining()));
                lemma_nonempty_push(prev, iter.remaining());
            }
            if iter.is_valid() {
                l0_iters.push(iter);
                proof {
                    assert(remainings(l0_iters@) =~= remainings(before).push(iter.remaining()));
                }
            }
            i = i + 1;
        }
        proof {
            assert(l0_sstables@.take(l0_sstables@.len() as int) =~= l0_sstables@);
        }
        let l0_merge_iter = MergeIterator::create(l0_iters);
        let l1_tables = tables_of(&self.state.sstables, l1_sstables);
        proof {
            lemma_run_fit(m, l1_sstables@);
        }
        let l1_merge_iter = MergeIterator::create(run_iters(l1_tables));
        let iter = TwoMergeIterator::create(l0_merge_iter, l1_merge_iter);
        proof {
            lemma_run_fit(m, l0_sstables@);
            lemma_single_run_fit(run_entries(m, l1_sstables@));
            lemma_two_level_fit(runs, seq![run_entries(m, l1_sstables@)]);
        }
        self.build_ssts_from_iter(iter, compact_to_bottom)
    }

    /// Compacts an upper level into a lower level, both sorted runs read one SST
    /// at a time.
    fn compact_level_to_level(&mut self, upper_sstables: &[usize], lower_sstables: &[usize], compact_to_bottom: bool) -> (outputs: Vec<Arc<SsTable>>)
        requires
            tables_ok(old(self).state.sstables@),
            ids_in_map(old(self).state.sstables@, upper_sstables@),
            ids_in_map(old(self).state.sstables@, lower_sstables@),
            sizes_ok(old(self).options),
        ensures
            outputs_ok(outputs@, old(self).next_sst_id),
            outputs_hold(outputs@, kept_entries(levels_merge(old(self).state.sstables@, upper_sstables@, lower_sstables@), compact_to_bottom), old(self).options),
            final(self).next_sst_id == id_after(old(self).next_sst_id, outputs@.len()),
            final(self).state == old(self).state,
            final(self).options == old(self).options,
            final(self).compaction_controller == old(self).compaction_controller,
    {
        let ghost m = self.state.sstables@;
        proof {
            lemma_run_fit(m, upper_sstables@);
            lemma_run_fit(m, lower_sstables@);
            lemma_single_run_fit(run_entries(m, upper_sstables@));
            lemma_single_run_fit(run_entries(m, lower_sstables@));
            lemma_two_level_fit(seq![run_entries(m, upper_sstables@)], seq![run_entries(m, lower_sstables@)]);
        }
        let upper_tables = tables_of(&self.state.sstables, upper_sstables);
        let upper_merge = MergeIterator::create(run_iters(upper_tables));
        let lower_tables = tables_of(&self.state.sstables, lower_sstables);
        let lower_merge = MergeIterator::create(run_iters(lower_tables));
        let iter = TwoMergeIterator::create(upper_merge, lower_merge);
        self.build_ssts_from_iter(iter, compact_to_bottom)
    }

    /// Compacts tiers, each a sorted run, the earlier tier winning on equal keys.
    fn compact_tiered(&mut self, tiers: &[(usize, Vec<usize>)], compact_to_bottom: bool) -> (outputs: Vec<Arc<SsTable>>)
        requires
            tables_ok(old(self).state.sstables@),
            levels_in_map(old(self).state.sstables@, levels_view(tiers@)),
            sizes_ok(old(self).options),
        ensures
            outputs_ok(outputs@, old(self).next_sst_id),
            outputs_hold(outputs@, kept_entries(tiers_merge(old(self).state.sstables@, levels_view(tiers@)), compact_to_bottom), old(self).options),
            final(self).next_sst_id == id_after(old(self).next_sst_id, outputs@.len()),
            final(self).state == old(self).state,
            final(self).options == old(self).options,
            final(self).compaction_controller == old(self).compaction_controller,
    {
        let ghost m = self.state.sstables@;
        let ghost tv = levels_view(tiers@);
        let mut tier_iters: Vec<SstConcatIterator> = Vec::new();
        let mut i: usize = 0;
        proof {
            reveal(Seq::filter);
            assert(tier_runs(m, tv.take(0)) =~= Seq::<Seq<(Seq<u8>, Seq<u8>)>>::empty());
            assert(remainings(tier_iters@) =~= nonempty(tier_runs(m, tv.take(0))));
        }
        while i < tiers.len()
            invariant
                i <= tiers@.len(),
                tv == levels_view(tiers@),
                m == self.state.sstables@,
                tables_ok(m),
                levels_in_map(m, tv),
                all_inv(tier_iters@),
                remainings(tier_iters@) == nonempty(tier_runs(m, tv.take(i as int))),
                runs_fit(tier_runs(m, tv.take(i as int))),
            decreases tiers@.len() - i,
        {
            assert(ids_in_map(m, tv[i as int].1));
            assert(tiers@[i as int].1@ == tv[i as int].1);
            let tier_tables = tables_of(&self.state.sstables, tiers[i].1.as_slice());
            proof {
                lemma_run_fit(m, tv[i as int].1);
                let prev = tier_runs(m, tv.take(i as int));
                let next = tier_runs(m, tv.take(i + 1));
                assert(next =~= prev.push(run_entries(m, tv[i as int].1)));
                lemma_nonempty_push(prev, run_entries(m, tv[i as int].1));
                assert forall|a: int, b: int| 0 <= a < next.len() && 0 <= b < next[a].len() implies entry_fits(#[trigger] next[a][b]) by {
                    if a < prev.len() {
                        assert(next[a] == prev[a]);
                    }
                }
            }
            let ghost before = tier_iters@;
            if tier_tables.len() > 0 {
                let iter = SstConcatIterator::create_and_seek_to_first(tier_tables);
                if iter.is_valid() {
                    tier_iters.push(iter);
                    proof {
                        assert(remainings(tier_iters@) =~= remainings(before).push(iter.remaining()));
                    }
                }
            } else {
                assert(tables_entries(tier_tables@) =~= Seq::<Seq<(Seq<u8>, Seq<u8>)>>::empty());
            }
            i = i + 1;
        }
        proof {
            assert(tv.take(tv.len() as int) =~= tv);
            lemma_nonempty_fit(tier_runs(m, tv));
            lemma_merge_many_fit(nonempty(tier_runs(m, tv)));
        }
        let merged = MergeIterator::create(tier_iters);
        self.build_ssts_from_iter(merged, compact_to_bottom)
    }

    /// Runs the compaction task: merges its input SSTs and writes the merged
    /// entries into new SSTs, dropping deletions when compacting into the bottom
    /// level.
    pub fn compact(&mut self, task: &CompactionTask) -> (outputs: Vec<Arc<SsTable>>)
        requires
            tables_ok(old(self).state.sstables@),
            task_ids_in_map(old(self).state.sstables@, *task),
            sizes_ok(old(self).options),
        ensures
            outputs_ok(outputs@, old(self).next_sst_id),
            outputs_hold(outputs@, kept_entries(compaction_entries(old(self).state.sstables@, *task), task.to_bottom_spec()), old(self).options),
            final(self).next_sst_id == id_after(old(self).next_sst_id, outputs@.len()),
            final(self).state == old(self).state,
            final(self).options == old(self).options,
            final(self).compaction_controller == old(self).compaction_controller,
    {
        let compact_to_bottom = task.compact_to_bottom_level();
        match task {
            CompactionTask::ForceFullCompaction { l0_sstables, l1_sstables } => {
                self.compact_l0_to_l1(l0_sstables.as_slice(), l1_sstables.as_slice(), compact_to_bottom)
            },
            CompactionTask::Simple(t) => {
                if t.upper_level.is_none() {
                    self.compact_l0_to_l1(t.upper_level_sst_ids.as_slice(), t.lower_level_sst_ids.as_slice(), compact_to_bottom)
                } else {
                    self.compact_level_to_level(t.upper_level_sst_ids.as_slice(), t.lower_level_sst_ids.as_slice(), compact_to_bottom)
                }
            },
            CompactionTask::Tiered(t) => self.compact_tiered(t.tiers.as_slice(), compact_to_bottom),
            CompactionTask::Leveled(t) => {
                if t.upper_level.is_none() {
                    self.compact_l0_to_l1(t.upper_level_sst_ids.as_slice(), t.lower_level_sst_ids.as_slice(), compact_to_bottom)
                } else {
                    self.compact_level_to_level(t.upper_level_sst_ids.as_slice(), t.lower_level_sst_ids.as_slice(), compact_to_bottom)
                }
            },
        }
    }

    /// Installs the result of a compaction task: the ids of the levels change as
    /// the task says, the new SSTs join the map and the removed inputs leave it.
    /// Gives the ids of the removed SSTs, whose files can then be deleted.
    pub fn install_compaction_result(&mut self, task: &CompactionTask, new_ssts: &[Arc<SsTable>], output_ids: &[usize]) -> (removed: Vec<usize>)
        requires
            install_ok(old(self).compaction_controller, old(self).state, *task, output_ids@),
        ensures
            final(self).state.imm_memtables@ == old(self).state.imm_memtables@,
            final(self).state.l0_sstables@ == l0_after(old(self).state, *task),
            final(self).state.levels_spec() == levels_after(old(self).state, *task, output_ids@),
            final(self).state.sstables@ == sstables_after(old(self).state.sstables@, *task, new_ssts@),
            removed@ == removed_after(old(self).state.sstables@, *task),
            final(self).options == old(self).options,
            final(self).compaction_controller == old(self).compaction_controller,
            final(self).next_sst_id == old(self).next_sst_id,
            tables_ok(old(self).state.sstables@)
                && (forall|i: int| 0 <= i < new_ssts@.len() ==> (#[trigger] new_ssts@[i]).wf() && all_fit(new_ssts@[i].entries()))
                ==> tables_ok(final(self).state.sstables@),
    {
        let (mut new_state, files_to_remove) = match task {
            CompactionTask::ForceFullCompaction { l0_sstables, l1_sstables } => {
                let mut s = self.state.clone();
                retain_ids_not_in(&mut s.l0_sstables, l0_sstables.as_slice());
                assert(s.levels_spec().len() == s.levels@.len());
                assert(self.state.levels_spec().len() == self.state.levels@.len());
                replace_level_ids(&mut s.levels, 0, slice_to_vec(output_ids));
                let mut inputs = slice_to_vec(l0_sstables.as_slice());
                append_ids(&mut inputs, l1_sstables.as_slice());
                let removed = remove_all(&mut s.sstables, inputs.as_slice());
                (s, removed)
            },
            _ => self.compaction_controller.apply_compaction_result(&self.state, task, output_ids, false),
        };
        insert_all(&mut new_state.sstables, new_ssts);
        let _ = remove_all(&mut new_state.sstables, files_to_remove.as_slice());
        proof {
            let m = self.state.sstables@;
            if tables_ok(m) && (forall|i: int| 0 <= i < new_ssts@.len() ==> (#[trigger] new_ssts@[i]).wf() && all_fit(new_ssts@[i].entries())) {
                let base = match task {
                    CompactionTask::ForceFullCompaction { l0_sstables, l1_sstables } => {
                        lemma_remove_ids_ok(m, l0_sstables@ + l1_sstables@);
                        remove_ids(m, l0_sstables@ + l1_sstables@)
                    },
                    _ => m,
                };
                lemma_insert_ssts_ok(base, new_ssts@);
                lemma_remove_ids_ok(insert_ssts(base, new_ssts@), removed_after(m, *task));
            }
        }
        self.state = new_state;
        files_to_remove
    }

    /// Compacts all of level 0 and level 1 into a new level 1, dropping deletions,
    /// and hands the new SSTs to `persist`. Once they are persisted (`persist`
    /// gives true) it installs the result; otherwise the state stays as it was.
    /// Gives the new SSTs and, once installed, the ids of the removed SSTs, whose
    /// files can then be deleted; nothing happens when both levels are empty.
    pub fn force_full_compaction<F: Fn(&[Arc<SsTable>]) -> bool>(&mut self, persist: &F) -> (r: (
        Vec<Arc<SsTable>>,
        Option<Vec<usize>>,
    ))
        requires
            storage_ok(old(self).state),
            old(self).state.levels@.len() > 0,
            sizes_ok(old(self).options),
            forall|ssts: &[Arc<SsTable>]| #[trigger] persist.requires((ssts,)),
        ensures
            old(self).state.l0_sstables@.len() > 0 || old(self).state.levels_spec()[0].1.len() > 0 ==> exists|sl: &[Arc<SsTable>]|
                sl@ == r.0@ && #[trigger] persist.ensures((sl,), r.1 is Some),
            ({
                let s = old(self).state;
                let m = s.sstables@;
                let l0 = s.l0_sstables@;
                let l1 = s.levels_spec()[0].1;
                if l0.len() == 0 && l1.len() == 0 {
                    &&& r.0@.len() == 0
                    &&& r.1 matches Some(removed) && removed@.len() == 0
                    &&& *final(self) == *old(self)
                } else if r.1 is None {
                    &&& outputs_ok(r.0@, old(self).next_sst_id)
                    &&& outputs_hold(r.0@, kept_entries(l0_merge(m, l0, l1), true), old(self).options)
                    &&& final(self).next_sst_id == id_after(old(self).next_sst_id, r.0@.len())
                    &&& final(self).state == s
                    &&& final(self).options == old(self).options
                    &&& final(self).compaction_controller == old(self).compaction_controller
                } else {
                    &&& outputs_ok(r.0@, old(self).next_sst_id)
                    &&& outputs_hold(r.0@, kept_entries(l0_merge(m, l0, l1), true), old(self).options)
                    &&& final(self).next_sst_id == id_after(old(self).next_sst_id, r.0@.len())
                    &&& final(self).state.imm_memtables@ == s.imm_memtables@
                    &&& final(self).state.l0_sstables@ == ids_without(l0, l0)
                    &&& final(self).state.levels_spec() == s.levels_spec().update(0, (s.levels_spec()[0].0, ids_of(r.0@)))
                    &&& r.1->0@ == removed_present(m, l0 + l1)
                    &&& final(self).state.sstables@ == remove_ids(insert_ssts(remove_ids(m, l0 + l1), r.0@), r.1->0@)
                    &&& final(self).options == old(self).options
                    &&& final(self).compaction_controller == old(self).compaction_controller
                }
            }),
            tables_ok(final(self).state.sstables@),
            ids_ok(old(self).state, old(self).next_sst_id) && old(self).next_sst_id + r.0@.len() <= usize::MAX
                ==> storage_ok(final(self).state) && ids_ok(final(self).state, final(self).next_sst_id),
    {
        let ghost s0 = self.state;
        let ghost next0 = self.next_sst_id;
        let l0_sstables = slice_to_vec(self.state.l0_sstables.as_slice());
        let l1_sstables = slice_to_vec(self.state.levels[0].1.as_slice());
        if l0_sstables.len() == 0 && l1_sstables.len() == 0 {
            assert(self.state.levels_spec()[0].1 == l1_sstables@);
            return (Vec::new(), Some(Vec::new()));
        }
        let task = CompactionTask::ForceFullCompaction { l0_sstables, l1_sstables };
        proof {
            assert(ids_in_map(self.state.sstables@, self.state.levels_spec()[0].1));
        }
        let new_ssts = self.compact(&task);
        let new_ids = sst_ids(new_ssts.as_slice());
        proof {
            lemma_compaction_entries_fit(self.state.sstables@, task);
            lemma_kept_fit(compaction_entries(self.state.sstables@, task), true);
            lemma_outputs_fit(new_ssts@, kept_entries(compaction_entries(self.state.sstables@, task), true));
        }
        let handed = new_ssts.as_slice();
        let persisted = persist(handed);
        proof {
            assert(handed@ == new_ssts@ && persist.ensures((handed,), persisted));
        }
        if !persisted {
            proof {
                if ids_ok(s0, next0) && next0 + new_ssts@.len() <= usize::MAX {
                    lemma_id_after(next0, new_ssts@.len());
                }
            }
            assert(handed@ == new_ssts@ && persist.ensures((handed,), false));
            let r = (new_ssts, None);
            assert(handed@ == r.0@ && persist.ensures((handed,), r.1 is Some));
            return r;
        }
        let removed = self.install_compaction_result(&task, new_ssts.as_slice(), new_ids.as_slice());
        proof {
            if ids_ok(s0, next0) && next0 + new_ssts@.len() <= usize::MAX {
                lemma_full_occ(s0, task, new_ids@);
                lemma_removed_in_map(s0.sstables@, task);
                lemma_install_keeps_ids(s0, next0, task, new_ssts@);
                lemma_id_after(next0, new_ssts@.len());
            }
        }
        let r = (new_ssts, Some(removed));
        proof {
            assert(handed@ == r.0@ && persist.ensures((handed,), r.1 is Some));
        }
        r
    }

    /// Runs one round of compaction: generates a task with the strategy and, if
    /// there is one, runs it and hands the new SSTs to `persist`. Once they are
    /// persisted (`persist` gives true) it installs the result; otherwise the
    /// state stays as it was. Gives the task, the new SSTs and, once installed,
    /// the ids of the removed SSTs, whose files can then be deleted.
    pub fn trigger_compaction<F: Fn(&[Arc<SsTable>]) -> bool>(&mut self, persist: &F) -> (r: Option<
        (CompactionTask, Vec<Arc<SsTable>>, Option<Vec<usize>>),
    >)
        requires
            storage_ok(old(self).state),
            generate_ok(old(self).compaction_controller, old(self).state),
            sizes_ok(old(self).options),
            forall|ssts: &[Arc<SsTable>]| #[trigger] persist.requires((ssts,)),
        ensures
            r matches Some(t) ==> exists|sl: &[Arc<SsTable>]| sl@ == t.1@ && #[trigger] persist.ensures((sl,), t.2 is Some),
            match r {
                None => {
                    &&& generated(old(self).compaction_controller, old(self).state, None)
                    &&& *final(self) == *old(self)
                },
                Some((task, new_ssts, None)) => {
                    &&& generated(old(self).compaction_controller, old(self).state, Some(task))
                    &&& outputs_ok(new_ssts@, old(self).next_sst_id)
                    &&& outputs_hold(
                        new_ssts@,
                        kept_entries(compaction_entries(old(self).state.sstables@, task), task.to_bottom_spec()),
                        old(self).options,
                    )
                    &&& final(self).next_sst_id == id_after(old(self).next_sst_id, new_ssts@.len())
                    &&& final(self).state == old(self).state
                    &&& final(self).options == old(self).options
                    &&& final(self).compaction_controller == old(self).compaction_controller
                },
                Some((task, new_ssts, Some(removed))) => {
                    let s = old(self).state;
                    let m = s.sstables@;
                    &&& generated(old(self).compaction_controller, s, Some(task))
                    &&& outputs_ok(new_ssts@, old(self).next_sst_id)
                    &&& outputs_hold(new_ssts@, kept_entries(compaction_entries(m, task), task.to_bottom_spec()), old(self).options)
                    &&& final(self).next_sst_id == id_after(old(self).next_sst_id, new_ssts@.len())
                    &&& final(self).state.imm_memtables@ == s.imm_memtables@
                    &&& final(self).state.l0_sstables@ == l0_after(s, task)
                    &&& final(self).state.levels_spec() == levels_after(s, task, ids_of(new_ssts@))
                    &&& final(self).state.sstables@ == sstables_after(m, task, new_ssts@)
                    &&& removed@ == removed_after(m, task)
                    &&& final(self).options == old(self).options
                    &&& final(self).compaction_controller == old(self).compaction_controller
                },
            },
            tables_ok(final(self).state.sstables@),
            ids_ok(old(self).state, old(self).next_sst_id)
                && (r matches Some(t) ==> old(self).next_sst_id + t.1@.len() <= usize::MAX)
                ==> storage_ok(final(self).state) && ids_ok(final(self).state, final(self).next_sst_id),
    {
        let ghost s0 = self.state;
        let ghost next0 = self.next_sst_id;
        let task = self.compaction_controller.generate_compaction_task(&self.state);
        match task {
            None => None,
            Some(task) => {
                proof {
                    lemma_generated_task(self.compaction_controller, self.state, task, Seq::empty());
                }
                let new_ssts = self.compact(&task);
                let output_ids = sst_ids(new_ssts.as_slice());
                proof {
                    lemma_generated_task(self.compaction_controller, self.state, task, output_ids@);
                    if leveled_without_inputs(task) {
                        assert(new_ssts@.len() == 0) by {
                            if new_ssts@.len() > 0 {
                                let tes = tables_entries(new_ssts@);
                                crate::table::lemma_concat_index(tes, 0, 0);
                                reveal(Seq::filter);
                                assert(kept_entries(Seq::<(Seq<u8>, Seq<u8>)>::empty(), task.to_bottom_spec()) =~= Seq::<(Seq<u8>, Seq<u8>)>::empty());
                                assert(compaction_entries(self.state.sstables@, task) =~= Seq::<(Seq<u8>, Seq<u8>)>::empty());
                            }
                        }
                    }
                }
                proof {
                    lemma_compaction_entries_fit(self.state.sstables@, task);
                    lemma_kept_fit(compaction_entries(self.state.sstables@, task), task.to_bottom_spec());
                    lemma_outputs_fit(new_ssts@, kept_entries(compaction_entries(self.state.sstables@, task), task.to_bottom_spec()));
                }
                let handed = new_ssts.as_slice();
                let persisted = persist(handed);
                proof {
                    assert(handed@ == new_ssts@ && persist.ensures((handed,), persisted));
                }
                if !persisted {
                    proof {
                        if ids_ok(s0, next0) && next0 + new_ssts@.len() <= usize::MAX {
                            lemma_id_after(next0, new_ssts@.len());
                        }
                    }
                    let r = Some((task, new_ssts, None));
                    proof {
                        let t = r->0;
                        assert(handed@ == t.1@ && persist.ensures((handed,), t.2 is Some));
                    }
                    return r;
                }
                let removed = self.install_compaction_result(&task, new_ssts.as_slice(), output_ids.as_slice());
                proof {
                    if ids_ok(s0, next0) && next0 + new_ssts@.len() <= usize::MAX {
                        lemma_generated_occ(self.compaction_controller, s0, task, output_ids@);
                        lemma_generated_task(self.compaction_controller, s0, task, output_ids@);
                        lemma_removed_in_map(s0.sstables@, task);
                        lemma_install_keeps_ids(s0, next0, task, new_ssts@);
                        lemma_id_after(next0, new_ssts@.len());
                    }
                }
                let r = Some((task, new_ssts, Some(removed)));
                proof {
                    let t = r->0;
                    assert(handed@ == t.1@ && persist.ensures((handed,), t.2 is Some));
                }
                r
            },
        }
    }

    /// Whether the immutable memtables have reached the limit, so that the
    /// earliest should be flushed.
    pub fn trigger_flush(&self) -> (r: bool)
        ensures
            r == (self.state.imm_memtables@.len() + 1 > self.options.num_memtable_limit),
    {
        self.state.imm_memtables.len() >= self.options.num_memtable_limit
    }
}

} // verus!
