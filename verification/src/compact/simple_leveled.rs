use crate::lsm_storage::{append_ids, ids_without, replace_level_ids, retain_ids_not_in, LsmStorageState};
use vstd::prelude::*;
use vstd::slice::slice_to_vec;

verus! {

#[derive(Debug, Clone)]
pub struct SimpleLeveledCompactionOptions {
    pub size_ratio_percent: usize,
    pub level0_file_num_compaction_trigger: usize,
    pub max_levels: usize,
}

#[derive(Debug, Clone)]
pub struct SimpleLeveledCompactionTask {
    /// If `upper_level` is `None`, then it is an L0 compaction.
    pub upper_level: Option<usize>,
    pub upper_level_sst_ids: Vec<usize>,
    pub lower_level: usize,
    pub lower_level_sst_ids: Vec<usize>,
    pub is_lower_level_bottom_level: bool,
}

pub struct SimpleLeveledCompactionController {
    options: SimpleLeveledCompactionOptions,
}

/// The level at index `i` is not empty and the level below it holds fewer than
/// `size_ratio_percent` percent of its SSTs.
pub open spec fn simple_ratio_trigger(lv: Seq<(usize, Seq<usize>)>, size_ratio_percent: usize, i: int) -> bool {
    &&& lv[i].1.len() > 0
    &&& lv[i + 1].1.len() * 100 < lv[i].1.len() * size_ratio_percent
}

/// The first index from `i` on, below `max_levels - 1`, at which the ratio trigger holds.
pub open spec fn simple_first_trigger(
    lv: Seq<(usize, Seq<usize>)>,
    size_ratio_percent: usize,
    max_levels: int,
    i: int,
) -> Option<int>
    decreases max_levels - 1 - i,
{
    if i < 0 || i >= max_levels - 1 {
        None
    } else if simple_ratio_trigger(lv, size_ratio_percent, i) {
        Some(i)
    } else {
        simple_first_trigger(lv, size_ratio_percent, max_levels, i + 1)
    }
}

proof fn lemma_simple_first_trigger_found(lv: Seq<(usize, Seq<usize>)>, ratio: usize, m: int, i: int, k: int)
    requires
        0 <= i <= k < m - 1,
        simple_ratio_trigger(lv, ratio, k),
        forall|j: int| i <= j < k ==> !simple_ratio_trigger(lv, ratio, j),
    ensures
        simple_first_trigger(lv, ratio, m, i) == Some(k),
    decreases k - i,
{
    if i < k {
        lemma_simple_first_trigger_found(lv, ratio, m, i + 1, k);
    }
}

proof fn lemma_simple_first_trigger_none(lv: Seq<(usize, Seq<usize>)>, ratio: usize, m: int, i: int)
    requires
        0 <= i,
        forall|j: int| i <= j < m - 1 ==> !simple_ratio_trigger(lv, ratio, j),
    ensures
        simple_first_trigger(lv, ratio, m, i) == None::<int>,
    decreases m - 1 - i,
{
    if i < m - 1 {
        lemma_simple_first_trigger_none(lv, ratio, m, i + 1);
    }
}

/// The trigger found is a level with a level below it, among the first `max_levels`.
pub proof fn lemma_simple_first_trigger_range(lv: Seq<(usize, Seq<usize>)>, ratio: usize, m: int, i: int)
    requires
        0 <= i,
    ensures
        simple_first_trigger(lv, ratio, m, i) matches Some(k) ==> i <= k < m - 1,
    decreases m - 1 - i,
{
    if i < m - 1 && !simple_ratio_trigger(lv, ratio, i) {
        lemma_simple_first_trigger_range(lv, ratio, m, i + 1);
    }
}

/// The levels after a compaction from `upper_level` (level 0 when `None`) into
/// `lower_level`: the upper inputs leave the upper level, the lower inputs leave
/// the lower level, and the output is appended to the lower level.
pub open spec fn apply_levels(
    lv: Seq<(usize, Seq<usize>)>,
    upper_level: Option<usize>,
    upper_ids: Seq<usize>,
    lower_level: usize,
    lower_ids: Seq<usize>,
    output: Seq<usize>,
) -> Seq<(usize, Seq<usize>)> {
    let lv1 = match upper_level {
        Some(u) => lv.update(u - 1, (lv[u - 1].0, ids_without(lv[u - 1].1, upper_ids))),
        None => lv,
    };
    lv1.update(lower_level - 1, (lv1[lower_level - 1].0, ids_without(lv1[lower_level - 1].1, lower_ids) + output))
}

/// Scanning the levels from index `i` for the size ratio trigger reads only
/// levels that exist: each level it reaches, and the level below a non-empty one.
pub open spec fn simple_scan_ok(lv: Seq<(usize, Seq<usize>)>, ratio: usize, max_levels: int, i: int) -> bool
    decreases max_levels - 1 - i,
{
    if i < 0 || i >= max_levels - 1 {
        true
    } else {
        &&& i < lv.len()
        &&& lv[i].1.len() > 0 ==> i + 1 < lv.len()
        &&& simple_ratio_trigger(lv, ratio, i) || simple_scan_ok(lv, ratio, max_levels, i + 1)
    }
}

/// The levels that generating a task reads exist: level 1 when level 0 is
/// compacted, else those the size ratio scan reaches.
pub open spec fn simple_generate_ok(o: SimpleLeveledCompactionOptions, s: LsmStorageState) -> bool {
    if s.l0_sstables@.len() >= o.level0_file_num_compaction_trigger {
        s.levels@.len() >= 1
    } else {
        simple_scan_ok(s.levels_spec(), o.size_ratio_percent, o.max_levels as int, 0)
    }
}

/// The level that the scan finds and the level below it exist.
pub proof fn lemma_simple_scan_found(lv: Seq<(usize, Seq<usize>)>, ratio: usize, m: int, i: int)
    requires
        0 <= i,
        simple_scan_ok(lv, ratio, m, i),
    ensures
        simple_first_trigger(lv, ratio, m, i) matches Some(k) ==> k + 1 < lv.len(),
    decreases m - 1 - i,
{
    if i < m - 1 && !simple_ratio_trigger(lv, ratio, i) {
        lemma_simple_scan_found(lv, ratio, m, i + 1);
    }
}

/// The task simple leveled compaction generates on a snapshot.
pub open spec fn simple_task_spec(
    o: SimpleLeveledCompactionOptions,
    snapshot: LsmStorageState,
    r: Option<SimpleLeveledCompactionTask>,
) -> bool {
    let lv = snapshot.levels_spec();
    if snapshot.l0_sstables@.len() >= o.level0_file_num_compaction_trigger {
        &&& r is Some
        &&& r->0.upper_level == None::<usize>
        &&& r->0.upper_level_sst_ids@ == snapshot.l0_sstables@
        &&& r->0.lower_level == 1
        &&& r->0.lower_level_sst_ids@ == lv[0].1
        &&& r->0.is_lower_level_bottom_level == (o.max_levels == 1)
    } else {
        match simple_first_trigger(lv, o.size_ratio_percent, o.max_levels as int, 0) {
            Some(i) => {
                &&& r is Some
                &&& r->0.upper_level == Some((i + 1) as usize)
                &&& r->0.upper_level_sst_ids@ == lv[i].1
                &&& r->0.lower_level == i + 2
                &&& r->0.lower_level_sst_ids@ == lv[i + 1].1
                &&& r->0.is_lower_level_bottom_level == (i + 2 == o.max_levels)
            },
            None => r is None,
        }
    }
}

/// The levels named by the task exist.
pub open spec fn simple_apply_ok(snapshot: LsmStorageState, task: SimpleLeveledCompactionTask) -> bool {
    &&& task.upper_level matches Some(u) ==> 1 <= u <= snapshot.levels@.len()
    &&& 1 <= task.lower_level <= snapshot.levels@.len()
}

/// The state and files to remove after applying a simple leveled compaction.
pub open spec fn simple_apply_spec(
    snapshot: LsmStorageState,
    task: SimpleLeveledCompactionTask,
    output: Seq<usize>,
    r: (LsmStorageState, Vec<usize>),
) -> bool {
    &&& r.1@ == task.upper_level_sst_ids@ + task.lower_level_sst_ids@
    &&& r.0.sstables@ == snapshot.sstables@
    &&& r.0.imm_memtables@ == snapshot.imm_memtables@
    &&& r.0.l0_sstables@ == if task.upper_level is None {
        ids_without(snapshot.l0_sstables@, task.upper_level_sst_ids@)
    } else {
        snapshot.l0_sstables@
    }
    &&& r.0.levels_spec() == apply_levels(
        snapshot.levels_spec(),
        task.upper_level,
        task.upper_level_sst_ids@,
        task.lower_level,
        task.lower_level_sst_ids@,
        output,
    )
}

impl SimpleLeveledCompactionController {
    pub closed spec fn options_spec(&self) -> SimpleLeveledCompactionOptions {
        self.options
    }

    /// The options the controller was made with.
    pub fn options(&self) -> (r: &SimpleLeveledCompactionOptions)
        ensures
            *r == self.options_spec(),
    {
        &self.options
    }

    pub fn new(options: SimpleLeveledCompactionOptions) -> (c: Self)
        ensures
            c.options_spec() == options,
    {
        Self { options }
    }

    /// Generates a compaction task: level 0 into level 1 when level 0 holds at
    /// least the trigger number of SSTs, else the first level whose lower
    /// neighbour is too small for the size ratio, else none. The levels run from
    /// level 1 to `max_levels`.
    pub fn generate_compaction_task(&self, snapshot: &LsmStorageState) -> (r: Option<SimpleLeveledCompactionTask>)
        requires
            simple_generate_ok(self.options_spec(), *snapshot),
        ensures
            simple_task_spec(self.options_spec(), *snapshot, r),
    {
        let ghost lv = snapshot.levels_spec();
        if snapshot.l0_sstables.len() >= self.options.level0_file_num_compaction_trigger {
            return Some(SimpleLeveledCompactionTask {
                upper_level: None,
                upper_level_sst_ids: slice_to_vec(snapshot.l0_sstables.as_slice()),
                lower_level: 1,
                lower_level_sst_ids: slice_to_vec(snapshot.levels[0].1.as_slice()),
                is_lower_level_bottom_level: self.options.max_levels == 1,
            });
        }
        let end = self.options.max_levels.saturating_sub(1);
        let mut upper_idx: usize = 0;
        while upper_idx < end
            invariant
                lv == snapshot.levels_spec(),
                snapshot.l0_sstables@.len() < self.options_spec().level0_file_num_compaction_trigger,
                end == if self.options_spec().max_levels >= 1 { self.options_spec().max_levels - 1 } else { 0 },
                simple_scan_ok(lv, self.options_spec().size_ratio_percent, self.options_spec().max_levels as int, upper_idx as int),
                lv.len() == snapshot.levels@.len(),
                upper_idx <= end,
                forall|j: int| 0 <= j < upper_idx ==> !simple_ratio_trigger(lv, self.options_spec().size_ratio_percent, j),
            decreases end - upper_idx,
        {
            let upper_len = snapshot.levels[upper_idx].1.len();
            proof {
                assert(lv[upper_idx as int].1 == snapshot.levels@[upper_idx as int].1@);
            }
            if upper_len != 0 {
                proof {
                    assert(lv[upper_idx + 1].1 == snapshot.levels@[upper_idx + 1].1@);
                }
                let lower_len = snapshot.levels[upper_idx + 1].1.len();
                let ratio = self.options.size_ratio_percent;
                assert((upper_len as u128) * (ratio as u128) <= 0xffff_ffff_ffff_ffff * 0xffff_ffff_ffff_ffff) by (nonlinear_arith)
                    requires upper_len <= 0xffff_ffff_ffff_ffff, ratio <= 0xffff_ffff_ffff_ffff;
                if (lower_len as u128) * 100 < (upper_len as u128) * (ratio as u128) {
                    proof {
                        assert(simple_ratio_trigger(lv, ratio, upper_idx as int));
                        lemma_simple_first_trigger_found(lv, self.options.size_ratio_percent, self.options.max_levels as int, 0, upper_idx as int);
                        assert(simple_first_trigger(lv, self.options_spec().size_ratio_percent, self.options_spec().max_levels as int, 0) == Some(upper_idx as int));
                    }
                    let t = SimpleLeveledCompactionTask {
                        upper_level: Some(upper_idx + 1),
                        upper_level_sst_ids: slice_to_vec(snapshot.levels[upper_idx].1.as_slice()),
                        lower_level: upper_idx + 2,
                        lower_level_sst_ids: slice_to_vec(snapshot.levels[upper_idx + 1].1.as_slice()),
                        is_lower_level_bottom_level: (upper_idx + 2) == self.options.max_levels,
                    };
                    return Some(t);
                }
            }
            upper_idx = upper_idx + 1;
        }
        proof {
            lemma_simple_first_trigger_none(lv, self.options.size_ratio_percent, self.options.max_levels as int, 0);
        }
        None
    }

    /// Applies the compaction result: the upper inputs leave the upper level (or
    /// level 0), the lower inputs leave the lower level, the output is appended to
    /// the lower level, and all inputs are the files to remove. SSTs flushed to
    /// level 0 meanwhile stay. The SST map is unchanged.
    pub fn apply_compaction_result(
        &self,
        snapshot: &LsmStorageState,
        task: &SimpleLeveledCompactionTask,
        output: &[usize],
    ) -> (r: (LsmStorageState, Vec<usize>))
        requires
            simple_apply_ok(*snapshot, *task),
        ensures
            simple_apply_spec(*snapshot, *task, output@, r),
    {
        let mut new_state = snapshot.clone();
        assert(new_state.levels@.len() == new_state.levels_spec().len());
        let mut files_to_remove: Vec<usize> = Vec::new();
        append_ids(&mut files_to_remove, task.upper_level_sst_ids.as_slice());
        append_ids(&mut files_to_remove, task.lower_level_sst_ids.as_slice());
        let ghost lv0 = new_state.levels_spec();
        match task.upper_level {
            Some(upper_level) => {
                let upper_idx = upper_level - 1;
                let mut ids = slice_to_vec(new_state.levels[upper_idx].1.as_slice());
                retain_ids_not_in(&mut ids, task.upper_level_sst_ids.as_slice());
                replace_level_ids(&mut new_state.levels, upper_idx, ids);
                assert(new_state.levels@.len() == new_state.levels_spec().len());
            },
            None => {
                retain_ids_not_in(&mut new_state.l0_sstables, task.upper_level_sst_ids.as_slice());
            },
        }
        let lower_idx = task.lower_level - 1;
        let mut ids = slice_to_vec(new_state.levels[lower_idx].1.as_slice());
        retain_ids_not_in(&mut ids, task.lower_level_sst_ids.as_slice());
        append_ids(&mut ids, output);
        replace_level_ids(&mut new_state.levels, lower_idx, ids);
        (new_state, files_to_remove)
    }
}

} // verus!
