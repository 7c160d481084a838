use std::collections::HashMap;
use std::sync::Arc;

use super::simple_leveled::apply_levels;
use crate::key::{key_le, key_le_exec, key_lt, key_lt_exec};
use crate::lsm_storage::{
    append_ids, get_sst, ids_in_map, ids_without, lemma_ids_without_contains, levels_in_map, replace_level_ids, retain_ids_not_in, LsmStorageState,
};
use crate::table::SsTable;
use vstd::prelude::*;
use vstd::slice::slice_to_vec;

verus! {

#[derive(Debug, Clone)]
pub struct LeveledCompactionTask {
    /// If `upper_level` is `None`, then it is an L0 compaction.
    pub upper_level: Option<usize>,
    pub upper_level_sst_ids: Vec<usize>,
    pub lower_level: usize,
    pub lower_level_sst_ids: Vec<usize>,
    pub is_lower_level_bottom_level: bool,
}

#[derive(Debug, Clone)]
pub struct LeveledCompactionOptions {
    pub level_size_multiplier: usize,
    pub level0_file_num_compaction_trigger: usize,
    pub max_levels: usize,
    pub base_level_size_mb: usize,
}

pub struct LeveledCompactionController {
    options: LeveledCompactionOptions,
}

/// The total size in bytes of the SSTs with the given ids.
pub open spec fn ids_size(m: Map<usize, Arc<SsTable>>, ids: Seq<usize>) -> int
    decreases ids.len(),
{
    if ids.len() == 0 {
        0
    } else {
        ids_size(m, ids.drop_last()) + m[ids.last()].size_spec()
    }
}

/// The size in bytes of each level.
pub open spec fn real_sizes(m: Map<usize, Arc<SsTable>>, lv: Seq<(usize, Seq<usize>)>) -> Seq<int> {
    Seq::new(lv.len(), |i: int| ids_size(m, lv[i].1))
}

/// The target size `d` levels above the bottom level, when the bottom level is at
/// least the base size: each level a `mul`-th of the one below, down to the first
/// level below the base size; the levels above that one get no target.
pub open spec fn target_from_bottom(bottom: int, base: int, mul: int, d: nat) -> int
    decreases d,
{
    if d == 0 {
        bottom
    } else {
        let below = target_from_bottom(bottom, base, mul, (d - 1) as nat);
        if below >= base { below / mul } else { 0 }
    }
}

/// The target size of each level: when the bottom level is smaller than the base
/// size, only the bottom level has a target, the base size.
pub open spec fn target_sizes(sizes: Seq<int>, base: int, mul: int) -> Seq<int> {
    let n = sizes.len();
    if n == 0 {
        Seq::empty()
    } else if sizes[n - 1] < base {
        Seq::new(n, |i: int| if i == n - 1 { base } else { 0 })
    } else {
        Seq::new(n, |i: int| target_from_bottom(sizes[n - 1], base, mul, (n - 1 - i) as nat))
    }
}

/// The base level size in bytes.
pub open spec fn base_size(o: LeveledCompactionOptions) -> int {
    o.base_level_size_mb * 1024 * 1024
}

/// The level size multiplier, at least 1.
pub open spec fn size_multiplier(o: LeveledCompactionOptions) -> int {
    if o.level_size_multiplier >= 1 { o.level_size_multiplier as int } else { 1 }
}

/// The target sizes of the levels, from the bottom up. When the bottom level is
/// below the base size, only the bottom level has a target, the base size.
/// Otherwise the bottom level's target is its size, each level above a level
/// whose target is at least the base size has that target divided by the
/// multiplier (so the first level whose target falls below the base size keeps
/// it), and every level above a level whose target is below the base size has
/// no target: at most one level has a target between zero and the base size.
pub proof fn lemma_target_sizes_law(sizes: Seq<int>, base: int, mul: int)
    requires
        sizes.len() > 0,
    ensures
        target_sizes(sizes, base, mul).len() == sizes.len(),
        sizes[sizes.len() - 1] < base ==> {
            &&& target_sizes(sizes, base, mul)[sizes.len() - 1] == base
            &&& forall|i: int| 0 <= i < sizes.len() - 1 ==> #[trigger] target_sizes(sizes, base, mul)[i] == 0
        },
        sizes[sizes.len() - 1] >= base ==> {
            &&& target_sizes(sizes, base, mul)[sizes.len() - 1] == sizes[sizes.len() - 1]
            &&& forall|i: int|
                0 <= i < sizes.len() - 1 && target_sizes(sizes, base, mul)[i + 1] >= base ==> #[trigger] target_sizes(sizes, base, mul)[i]
                    == target_sizes(sizes, base, mul)[i + 1] / mul
            &&& forall|i: int|
                0 <= i < sizes.len() - 1 && target_sizes(sizes, base, mul)[i + 1] < base ==> #[trigger] target_sizes(sizes, base, mul)[i] == 0
            &&& forall|i: int, j: int|
                0 <= i < j < sizes.len() && 0 < #[trigger] target_sizes(sizes, base, mul)[j] < base ==> #[trigger] target_sizes(sizes, base, mul)[i] == 0
        },
{
    let n = sizes.len() as int;
    let ts = target_sizes(sizes, base, mul);
    if sizes[n - 1] >= base {
        let bottom = sizes[n - 1];
        assert forall|i: int| 0 <= i < n - 1 implies #[trigger] ts[i] == (if ts[i + 1] >= base { ts[i + 1] / mul } else { 0 }) by {
            assert(ts[i] == target_from_bottom(bottom, base, mul, (n - 1 - i) as nat));
            assert(ts[i + 1] == target_from_bottom(bottom, base, mul, (n - 1 - (i + 1)) as nat));
            assert((n - 1 - i) as nat - 1 == (n - 1 - (i + 1)) as nat);
        }
        assert forall|i: int, j: int| 0 <= i < j < n && 0 < #[trigger] ts[j] < base implies #[trigger] ts[i] == 0 by {
            lemma_targets_above_small(sizes, base, mul, i, j);
        }
    }
}

proof fn lemma_targets_above_small(sizes: Seq<int>, base: int, mul: int, i: int, j: int)
    requires
        sizes.len() > 0,
        sizes[sizes.len() - 1] >= base,
        base > 0,
        0 <= i < j < sizes.len(),
        target_sizes(sizes, base, mul)[j] < base,
    ensures
        target_sizes(sizes, base, mul)[i] == 0,
    decreases j - i,
{
    let n = sizes.len() as int;
    let ts = target_sizes(sizes, base, mul);
    let bottom = sizes[n - 1];
    let below = j - 1;
    assert(ts[below] == target_from_bottom(bottom, base, mul, (n - 1 - below) as nat));
    assert(ts[j] == target_from_bottom(bottom, base, mul, (n - 1 - j) as nat));
    assert((n - 1 - below) as nat - 1 == (n - 1 - j) as nat);
    assert(ts[below] == 0);
    if i < below {
        lemma_targets_above_small(sizes, base, mul, i, below);
    }
}

/// The target size of each level of the state.
pub open spec fn state_targets(m: Map<usize, Arc<SsTable>>, lv: Seq<(usize, Seq<usize>)>, o: LeveledCompactionOptions) -> Seq<int> {
    target_sizes(real_sizes(m, lv), base_size(o), size_multiplier(o))
}

/// The first index from `i` on with a positive target.
pub open spec fn first_positive(ts: Seq<int>, i: int) -> Option<int>
    decreases ts.len() - i,
{
    if i < 0 || i >= ts.len() {
        None
    } else if ts[i] > 0 {
        Some(i)
    } else {
        first_positive(ts, i + 1)
    }
}

/// The level that level 0 is compacted into: the first level with a target size
/// (levels are numbered from 1), else `max_levels`.
pub open spec fn base_level(ts: Seq<int>, max_levels: usize) -> int {
    match first_positive(ts, 0) {
        Some(i) => i + 1,
        None => max_levels as int,
    }
}

/// The smallest first key of the SSTs with the given ids.
pub open spec fn min_first_key(m: Map<usize, Arc<SsTable>>, ids: Seq<usize>) -> Seq<u8>
    decreases ids.len(),
{
    if ids.len() <= 1 {
        m[ids[0]].first_key_spec()
    } else {
        let rest = min_first_key(m, ids.drop_last());
        let k = m[ids.last()].first_key_spec();
        if key_le(rest, k) { rest } else { k }
    }
}

/// The largest last key of the SSTs with the given ids.
pub open spec fn max_last_key(m: Map<usize, Arc<SsTable>>, ids: Seq<usize>) -> Seq<u8>
    decreases ids.len(),
{
    if ids.len() <= 1 {
        m[ids[0]].last_key_spec()
    } else {
        let rest = max_last_key(m, ids.drop_last());
        let k = m[ids.last()].last_key_spec();
        if key_le(rest, k) { k } else { rest }
    }
}

/// The SST's key range meets `[lo, hi]`.
pub open spec fn sst_overlaps(t: SsTable, lo: Seq<u8>, hi: Seq<u8>) -> bool {
    !(key_lt(t.last_key_spec(), lo) || key_lt(hi, t.first_key_spec()))
}

/// The SSTs of `level_ids`, in order, whose key ranges meet the key span of the SSTs `ids`.
pub open spec fn overlapping_ssts(m: Map<usize, Arc<SsTable>>, ids: Seq<usize>, level_ids: Seq<usize>) -> Seq<usize> {
    if ids.len() == 0 {
        Seq::empty()
    } else {
        let lo = min_first_key(m, ids);
        let hi = max_last_key(m, ids);
        level_ids.filter(|id: usize| sst_overlaps(*m[id], lo, hi))
    }
}

/// Level `i` (an index into the levels) fills its target by more than the best one so far.
pub open spec fn better_level(sizes: Seq<int>, ts: Seq<int>, i: int, best: Option<int>) -> bool {
    &&& ts[i] != 0
    &&& match best {
        None => sizes[i] > ts[i],
        Some(b) => sizes[i] * ts[b] > sizes[b] * ts[i],
    }
}

/// The level below `end` that most overfills its target, if any overfills it.
pub open spec fn best_level_from(sizes: Seq<int>, ts: Seq<int>, end: int, i: int, best: Option<int>) -> Option<int>
    decreases end - i,
{
    if i >= end {
        best
    } else {
        best_level_from(sizes, ts, end, i + 1, if better_level(sizes, ts, i, best) { Some(i) } else { best })
    }
}

proof fn lemma_best_level_range(sizes: Seq<int>, ts: Seq<int>, end: int, i: int, best: Option<int>)
    requires
        0 <= i,
        best matches Some(b) ==> 0 <= b < end,
    ensures
        best_level_from(sizes, ts, end, i, best) matches Some(u) ==> 0 <= u < end,
    decreases end - i,
{
    if i < end {
        lemma_best_level_range(sizes, ts, end, i + 1, if better_level(sizes, ts, i, best) { Some(i) } else { best });
    }
}

/// The task that leveled compaction generates, as (upper level, upper ids,
/// lower level, lower ids, lower level is the bottom level).
pub open spec fn leveled_task(
    l0: Seq<usize>,
    lv: Seq<(usize, Seq<usize>)>,
    m: Map<usize, Arc<SsTable>>,
    o: LeveledCompactionOptions,
) -> Option<(Option<usize>, Seq<usize>, int, Seq<usize>, bool)> {
    let sizes = real_sizes(m, lv);
    let ts = state_targets(m, lv, o);
    if l0.len() >= o.level0_file_num_compaction_trigger {
        let lower = base_level(ts, o.max_levels);
        Some((None, l0, lower, overlapping_ssts(m, l0, lv[lower - 1].1), lower == o.max_levels))
    } else {
        match best_level_from(sizes, ts, o.max_levels - 1, 0, None) {
            None => None,
            Some(u) => if lv[u].1.len() == 0 {
                None
            } else {
                let upper = seq![lv[u].1[0]];
                Some((Some((u + 1) as usize), upper, u + 2, overlapping_ssts(m, upper, lv[u + 1].1), u + 2 == o.max_levels))
            },
        }
    }
}

/// The levels that generating a task reads exist: with level 0 at its trigger,
/// the level it is compacted into; else the targets of the first
/// `max_levels - 1` levels, and the level below the one chosen when that one has
/// an SST.
pub open spec fn leveled_reads_ok(
    l0: Seq<usize>,
    lv: Seq<(usize, Seq<usize>)>,
    m: Map<usize, Arc<SsTable>>,
    o: LeveledCompactionOptions,
) -> bool {
    let ts = state_targets(m, lv, o);
    if l0.len() >= o.level0_file_num_compaction_trigger {
        1 <= base_level(ts, o.max_levels) <= lv.len()
    } else {
        &&& 1 <= o.max_levels
        &&& o.max_levels - 1 <= lv.len()
        &&& (best_level_from(real_sizes(m, lv), ts, o.max_levels - 1, 0, None) matches Some(u) ==> (lv[u].1.len() > 0
            ==> u + 1 < lv.len()))
    }
}

/// A task compacts level 0, or the first SST of a non-empty level, into a level
/// below it, with the SSTs of that level that overlap its inputs.
pub proof fn lemma_leveled_task_shape(l0: Seq<usize>, lv: Seq<(usize, Seq<usize>)>, m: Map<usize, Arc<SsTable>>, o: LeveledCompactionOptions)
    requires
        leveled_reads_ok(l0, lv, m, o),
    ensures
        leveled_task(l0, lv, m, o) matches Some((up, upper_ids, lower, lower_ids, _)) ==> {
            &&& 1 <= lower <= lv.len()
            &&& lower_ids == overlapping_ssts(m, upper_ids, lv[lower - 1].1)
            &&& up is None ==> upper_ids == l0
            &&& up matches Some(u) ==> {
                &&& 1 <= u < lower
                &&& lv[u - 1].1.len() > 0
                &&& upper_ids == seq![lv[u - 1].1[0]]
            }
        },
{
    let sizes = real_sizes(m, lv);
    let ts = state_targets(m, lv, o);
    assert(ts.len() == lv.len());
    lemma_first_positive_range(ts, 0);
    lemma_best_level_range(sizes, ts, o.max_levels - 1, 0, None);
}

/// The position in `ids` of the first SST whose last key is at least `key`, or the length.
pub open spec fn first_last_key_at_least(m: Map<usize, Arc<SsTable>>, ids: Seq<usize>, key: Seq<u8>) -> int
    decreases ids.len(),
{
    if ids.len() == 0 {
        0
    } else if key_le(key, m[ids[0]].last_key_spec()) {
        0
    } else {
        1 + first_last_key_at_least(m, ids.drop_first(), key)
    }
}

/// The lower level's ids after its inputs leave and the output comes in: appended
/// while replaying (no SST metadata yet), else placed before the first SST whose
/// last key reaches the smallest first key of the upper inputs.
pub open spec fn leveled_lower_ids(
    m: Map<usize, Arc<SsTable>>,
    kept: Seq<usize>,
    upper_ids: Seq<usize>,
    output: Seq<usize>,
    in_recovery: bool,
) -> Seq<usize> {
    if output.len() == 0 {
        kept
    } else if in_recovery {
        kept + output
    } else {
        let pos = first_last_key_at_least(m, kept, min_first_key(m, upper_ids));
        kept.take(pos) + output + kept.skip(pos)
    }
}

/// The levels after applying a leveled compaction.
pub open spec fn leveled_apply_levels(
    lv: Seq<(usize, Seq<usize>)>,
    m: Map<usize, Arc<SsTable>>,
    upper_level: Option<usize>,
    upper_ids: Seq<usize>,
    lower_level: usize,
    lower_ids: Seq<usize>,
    output: Seq<usize>,
    in_recovery: bool,
) -> Seq<(usize, Seq<usize>)> {
    let lv1 = apply_levels(lv, upper_level, upper_ids, lower_level, lower_ids, Seq::empty());
    let kept = lv1[lower_level - 1].1;
    lv1.update(lower_level - 1, (lv1[lower_level - 1].0, leveled_lower_ids(m, kept, upper_ids, output, in_recovery)))
}

proof fn lemma_ids_size_step(m: Map<usize, Arc<SsTable>>, ids: Seq<usize>, i: int)
    requires
        0 <= i < ids.len(),
    ensures
        ids_size(m, ids.take(i + 1)) == ids_size(m, ids.take(i)) + m[ids[i]].size_spec(),
{
    assert(ids.take(i + 1).drop_last() =~= ids.take(i));
}

proof fn lemma_ids_size_mono(m: Map<usize, Arc<SsTable>>, ids: Seq<usize>, i: int, j: int)
    requires
        0 <= i <= j <= ids.len(),
    ensures
        ids_size(m, ids.take(i)) <= ids_size(m, ids.take(j)),
    decreases j - i,
{
    if i < j {
        lemma_ids_size_mono(m, ids, i, j - 1);
        lemma_ids_size_step(m, ids, j - 1);
    }
}

proof fn lemma_target_nonneg(bottom: int, base: int, mul: int, d: nat)
    requires
        bottom >= 0,
        mul >= 1,
    ensures
        0 <= target_from_bottom(bottom, base, mul, d) <= bottom,
    decreases d,
{
    if d > 0 {
        lemma_target_nonneg(bottom, base, mul, (d - 1) as nat);
        let below = target_from_bottom(bottom, base, mul, (d - 1) as nat);
        assert(below / mul <= below) by (nonlinear_arith)
            requires below >= 0, mul >= 1;
    }
}

proof fn lemma_target_stops(bottom: int, base: int, mul: int, d: nat, e: nat)
    requires
        bottom >= 0,
        mul >= 1,
        d < e,
        target_from_bottom(bottom, base, mul, d) < base,
    ensures
        target_from_bottom(bottom, base, mul, e) == 0,
    decreases e - d,
{
    if e > d + 1 {
        lemma_target_stops(bottom, base, mul, d, (e - 1) as nat);
    }
}

proof fn lemma_first_positive_found(ts: Seq<int>, i: int, k: int)
    requires
        0 <= i <= k < ts.len(),
        ts[k] > 0,
        forall|j: int| i <= j < k ==> ts[j] <= 0,
    ensures
        first_positive(ts, i) == Some(k),
    decreases k - i,
{
    if i < k {
        lemma_first_positive_found(ts, i + 1, k);
    }
}

proof fn lemma_first_positive_none(ts: Seq<int>, i: int)
    requires
        0 <= i,
        forall|j: int| i <= j < ts.len() ==> ts[j] <= 0,
    ensures
        first_positive(ts, i) == None::<int>,
    decreases ts.len() - i,
{
    if i < ts.len() {
        lemma_first_positive_none(ts, i + 1);
    }
}

proof fn lemma_first_positive_range(ts: Seq<int>, i: int)
    requires
        0 <= i,
    ensures
        first_positive(ts, i) matches Some(k) ==> i <= k < ts.len(),
    decreases ts.len() - i,
{
    if i < ts.len() && ts[i] <= 0 {
        lemma_first_positive_range(ts, i + 1);
    }
}

proof fn lemma_min_first_key_step(m: Map<usize, Arc<SsTable>>, ids: Seq<usize>, i: int)
    requires
        1 <= i < ids.len(),
    ensures
        min_first_key(m, ids.take(i + 1)) == if key_le(min_first_key(m, ids.take(i)), m[ids[i]].first_key_spec()) {
            min_first_key(m, ids.take(i))
        } else {
            m[ids[i]].first_key_spec()
        },
        max_last_key(m, ids.take(i + 1)) == if key_le(max_last_key(m, ids.take(i)), m[ids[i]].last_key_spec()) {
            m[ids[i]].last_key_spec()
        } else {
            max_last_key(m, ids.take(i))
        },
{
    assert(ids.take(i + 1).drop_last() =~= ids.take(i));
}

proof fn lemma_first_last_key_skip(m: Map<usize, Arc<SsTable>>, ids: Seq<usize>, key: Seq<u8>, p: int)
    requires
        0 <= p < ids.len(),
        !key_le(key, m[ids[p]].last_key_spec()),
    ensures
        first_last_key_at_least(m, ids.skip(p), key) == 1 + first_last_key_at_least(m, ids.skip(p + 1), key),
{
    assert(ids.skip(p).drop_first() =~= ids.skip(p + 1));
}

/// The size in bytes of each level.
fn level_real_sizes_of(sstables: &HashMap<usize, Arc<SsTable>>, levels: &Vec<(usize, Vec<usize>)>) -> (r: Vec<u64>)
    requires
        levels_in_map(sstables@, crate::lsm_storage::levels_view(levels@)),
        forall|i: int| 0 <= i < levels@.len() ==> ids_size(sstables@, #[trigger] levels@[i].1@) <= u64::MAX,
    ensures
        r@.len() == levels@.len(),
        forall|i: int| 0 <= i < r@.len() ==> r@[i] == #[trigger] real_sizes(sstables@, crate::lsm_storage::levels_view(levels@))[i],
{
    let ghost lv = crate::lsm_storage::levels_view(levels@);
    let mut sizes: Vec<u64> = Vec::new();
    let mut i: usize = 0;
    while i < levels.len()
        invariant
            lv == crate::lsm_storage::levels_view(levels@),
            levels_in_map(sstables@, lv),
            forall|k: int| 0 <= k < levels@.len() ==> ids_size(sstables@, #[trigger] levels@[k].1@) <= u64::MAX,
            i <= levels@.len(),
            sizes@.len() == i,
            forall|k: int| 0 <= k < i ==> sizes@[k] == #[trigger] real_sizes(sstables@, lv)[k],
        decreases levels@.len() - i,
    {
        let ids = &levels[i].1;
        let ghost s = ids@;
        assert(lv[i as int].1 == s);
        assert(ids_in_map(sstables@, s));
        let mut total: u64 = 0;
        let mut j: usize = 0;
        proof {
            assert(s.take(0) =~= Seq::<usize>::empty());
        }
        while j < ids.len()
            invariant
                s == ids@,
                ids_in_map(sstables@, s),
                ids_size(sstables@, s) <= u64::MAX,
                j <= s.len(),
                total == ids_size(sstables@, s.take(j as int)),
            decreases s.len() - j,
        {
            let t = get_sst(sstables, ids[j]);
            proof {
                lemma_ids_size_step(sstables@, s, j as int);
                lemma_ids_size_mono(sstables@, s, j + 1, s.len() as int);
                assert(s.take(s.len() as int) =~= s);
            }
            total = total + t.table_size();
            j = j + 1;
        }
        proof {
            assert(s.take(s.len() as int) =~= s);
        }
        sizes.push(total);
        i = i + 1;
    }
    sizes
}



/// The smallest first key of the SSTs with the given ids.
fn min_first_key_of<'a>(sstables: &'a HashMap<usize, Arc<SsTable>>, ids: &[usize]) -> (r: &'a [u8])
    requires
        ids@.len() > 0,
        ids_in_map(sstables@, ids@),
    ensures
        r@ == min_first_key(sstables@, ids@),
{
    let ghost m = sstables@;
    let mut best: &[u8] = get_sst(sstables, ids[0]).first_key();
    let mut j: usize = 1;
    proof {
        assert(ids@.take(1) =~= seq![ids@[0]]);
    }
    while j < ids.len()
        invariant
            m == sstables@,
            ids_in_map(m, ids@),
            1 <= j <= ids@.len(),
            best@ == min_first_key(m, ids@.take(j as int)),
        decreases ids@.len() - j,
    {
        let k = get_sst(sstables, ids[j]).first_key();
        proof {
            lemma_min_first_key_step(m, ids@, j as int);
        }
        if !key_le_exec(best, k) {
            best = k;
        }
        j = j + 1;
    }
    proof {
        assert(ids@.take(ids@.len() as int) =~= ids@);
    }
    best
}

/// The largest last key of the SSTs with the given ids.
fn max_last_key_of<'a>(sstables: &'a HashMap<usize, Arc<SsTable>>, ids: &[usize]) -> (r: &'a [u8])
    requires
        ids@.len() > 0,
        ids_in_map(sstables@, ids@),
    ensures
        r@ == max_last_key(sstables@, ids@),
{
    let ghost m = sstables@;
    let mut best: &[u8] = get_sst(sstables, ids[0]).last_key();
    let mut j: usize = 1;
    proof {
        assert(ids@.take(1) =~= seq![ids@[0]]);
    }
    while j < ids.len()
        invariant
            m == sstables@,
            ids_in_map(m, ids@),
            1 <= j <= ids@.len(),
            best@ == max_last_key(m, ids@.take(j as int)),
        decreases ids@.len() - j,
    {
        let k = get_sst(sstables, ids[j]).last_key();
        proof {
            lemma_min_first_key_step(m, ids@, j as int);
        }
        if key_le_exec(best, k) {
            best = k;
        }
        j = j + 1;
    }
    proof {
        assert(ids@.take(ids@.len() as int) =~= ids@);
    }
    best
}

/// The SSTs of `level_ids`, in order, whose key ranges meet `[lo, hi]`.
fn filter_overlapping(sstables: &HashMap<usize, Arc<SsTable>>, level_ids: &[usize], lo: &[u8], hi: &[u8]) -> (r: Vec<usize>)
    requires
        ids_in_map(sstables@, level_ids@),
    ensures
        r@ == level_ids@.filter(|id: usize| sst_overlaps(*sstables@[id], lo@, hi@)),
{
    let ghost m = sstables@;
    let ghost pred = |id: usize| sst_overlaps(*m[id], lo@, hi@);
    let mut out: Vec<usize> = Vec::new();
    let mut i: usize = 0;
    while i < level_ids.len()
        invariant
            m == sstables@,
            pred == |id: usize| sst_overlaps(*m[id], lo@, hi@),
            ids_in_map(m, level_ids@),
            i <= level_ids@.len(),
            out@ == level_ids@.take(i as int).filter(pred),
        decreases level_ids@.len() - i,
    {
        let id = level_ids[i];
        let t = get_sst(sstables, id);
        proof {
            reveal(Seq::filter);
            let tk = level_ids@.take(i + 1);
            assert(tk.drop_last() =~= level_ids@.take(i as int));
            assert(tk.last() == id);
        }
        if !(key_lt_exec(t.last_key(), lo) || key_lt_exec(hi, t.first_key())) {
            out.push(id);
        }
        i = i + 1;
    }
    proof {
        assert(level_ids@.take(level_ids@.len() as int) =~= level_ids@);
    }
    out
}


/// The position in `ids` of the first SST whose last key is at least `key`, or the length.
/// Scanning `ids` for the first SST whose last key reaches `key` reads SSTs of
/// the map only: each one it reaches, up to and including that one.
pub open spec fn scan_in_map(m: Map<usize, Arc<SsTable>>, ids: Seq<usize>, key: Seq<u8>) -> bool
    decreases ids.len(),
{
    ids.len() == 0 || (m.contains_key(ids[0]) && (key_le(key, m[ids[0]].last_key_spec()) || scan_in_map(
        m,
        ids.drop_first(),
        key,
    )))
}

/// When every id names an SST, so does every id a scan reaches.
pub proof fn lemma_scan_in_map(m: Map<usize, Arc<SsTable>>, ids: Seq<usize>, key: Seq<u8>)
    requires
        ids_in_map(m, ids),
    ensures
        scan_in_map(m, ids, key),
    decreases ids.len(),
{
    if ids.len() > 0 {
        assert(m.contains_key(ids[0]));
        let rest = ids.drop_first();
        assert forall|i: int| 0 <= i < rest.len() implies m.contains_key(#[trigger] rest[i]) by {
            assert(rest[i] == ids[i + 1]);
        }
        lemma_scan_in_map(m, rest, key);
    }
}

/// The SSTs kept in the lower level, once the inputs leave, are SSTs of the map
/// when every level's are.
pub proof fn lemma_kept_in_map(
    lv: Seq<(usize, Seq<usize>)>,
    m: Map<usize, Arc<SsTable>>,
    upper_level: Option<usize>,
    upper_ids: Seq<usize>,
    lower_level: usize,
    lower_ids: Seq<usize>,
)
    requires
        levels_in_map(m, lv),
        1 <= lower_level <= lv.len(),
        upper_level matches Some(u) ==> 1 <= u <= lv.len(),
    ensures
        ids_in_map(m, apply_levels(lv, upper_level, upper_ids, lower_level, lower_ids, Seq::empty())[lower_level - 1].1),
{
    let lv1 = match upper_level {
        Some(u) => lv.update(u - 1, (lv[u - 1].0, ids_without(lv[u - 1].1, upper_ids))),
        None => lv,
    };
    let before = lv1[lower_level - 1].1;
    let kept = apply_levels(lv, upper_level, upper_ids, lower_level, lower_ids, Seq::empty())[lower_level - 1].1;
    assert(kept =~= ids_without(before, lower_ids));
    assert(ids_in_map(m, lv[lower_level - 1].1));
    assert forall|i: int| 0 <= i < kept.len() implies m.contains_key(#[trigger] kept[i]) by {
        assert(kept.contains(kept[i]));
        lemma_ids_without_contains(before, lower_ids, kept[i]);
        if let Some(u) = upper_level {
            if u == lower_level {
                lemma_ids_without_contains(lv[u - 1].1, upper_ids, kept[i]);
            }
        }
        let level = lv[lower_level - 1].1;
        let j = choose|j: int| 0 <= j < level.len() && #[trigger] level[j] == kept[i];
        assert(m.contains_key(level[j]));
    }
}

fn first_last_key_at_least_exec(sstables: &HashMap<usize, Arc<SsTable>>, ids: &[usize], key: &[u8]) -> (r: usize)
    requires
        scan_in_map(sstables@, ids@, key@),
    ensures
        r == first_last_key_at_least(sstables@, ids@, key@),
        r <= ids@.len(),
{
    let ghost m = sstables@;
    let mut pos: usize = 0;
    proof {
        assert(ids@.skip(0) =~= ids@);
    }
    while pos < ids.len() && !key_le_exec(key, get_sst(sstables, ids[pos]).last_key())
        invariant
            m == sstables@,
            scan_in_map(m, ids@.skip(pos as int), key@),
            pos <= ids@.len(),
            first_last_key_at_least(m, ids@, key@) == pos + first_last_key_at_least(m, ids@.skip(pos as int), key@),
        decreases ids@.len() - pos,
    {
        proof {
            lemma_first_last_key_skip(m, ids@, key@, pos as int);
            assert(ids@.skip(pos as int).drop_first() =~= ids@.skip(pos + 1));
        }
        pos = pos + 1;
    }
    pos
}

/// The level below `end` whose size most overfills its target, if any
/// overfills it; on equal ratios the first one.
fn best_level(sizes: &[u64], targets: &[u64], end: usize, Ghost(sz): Ghost<Seq<int>>, Ghost(ts): Ghost<Seq<int>>) -> (r: Option<usize>)
    requires
        sizes@.len() == sz.len(),
        targets@.len() == ts.len(),
        sz.len() == ts.len(),
        forall|k: int| 0 <= k < sizes@.len() ==> sizes@[k] == #[trigger] sz[k],
        forall|k: int| 0 <= k < targets@.len() ==> targets@[k] == #[trigger] ts[k],
        end <= ts.len(),
    ensures
        match r {
            Some(b) => best_level_from(sz, ts, end as int, 0, None) == Some(b as int),
            None => best_level_from(sz, ts, end as int, 0, None) is None,
        },
{
        let mut best: Option<usize> = None;
        let mut i: usize = 0;
        while i < end
            invariant
                sizes@.len() == sz.len(),
                targets@.len() == ts.len(),
                sz.len() == ts.len(),
                forall|k: int| 0 <= k < sizes@.len() ==> sizes@[k] == #[trigger] sz[k],
                forall|k: int| 0 <= k < targets@.len() ==> targets@[k] == #[trigger] ts[k],
                end <= ts.len(),
                i <= end,
                best matches Some(b) ==> b < i && ts[b as int] > 0,
                best_level_from(sz, ts, end as int, 0, None) == best_level_from(
                    sz,
                    ts,
                    end as int,
                    i as int,
                    match best { Some(b) => Some(b as int), None => None },
                ),
            decreases end - i,
        {
            let target = targets[i];
            if target != 0 {
                let better = match best {
                    None => sizes[i] > target,
                    Some(b) => {
                        let (si, tb, sb, ti) = (sizes[i] as u128, targets[b] as u128, sizes[b] as u128, target as u128);
                        assert(si * tb <= 0xffff_ffff_ffff_ffffu128 * 0xffff_ffff_ffff_ffffu128) by (nonlinear_arith)
                            requires si <= 0xffff_ffff_ffff_ffffu128, tb <= 0xffff_ffff_ffff_ffffu128;
                        assert(sb * ti <= 0xffff_ffff_ffff_ffffu128 * 0xffff_ffff_ffff_ffffu128) by (nonlinear_arith)
                            requires sb <= 0xffff_ffff_ffff_ffffu128, ti <= 0xffff_ffff_ffff_ffffu128;
                        si * tb > sb * ti
                    },
                };
                proof {
                    assert(sz[i as int] == sizes@[i as int]);
                }
                if better {
                    best = Some(i);
                }
            }
            i = i + 1;
        }
    best
}

/// The state's preconditions for leveled compaction: every SST id of level 0 and
/// of the levels names an SST, and each level's size fits a `u64`.
pub open spec fn leveled_state_ok(s: LsmStorageState) -> bool {
    &&& ids_in_map(s.sstables@, s.l0_sstables@)
    &&& levels_in_map(s.sstables@, s.levels_spec())
    &&& forall|i: int| 0 <= i < s.levels@.len() ==> ids_size(s.sstables@, #[trigger] s.levels@[i].1@) <= u64::MAX
}

/// Leveled compaction's preconditions: the state's SSTs are known and fit, the
/// base level size fits a `u64`, and the levels it reads exist.
pub open spec fn leveled_generate_ok(o: LeveledCompactionOptions, s: LsmStorageState) -> bool {
    &&& leveled_state_ok(s)
    &&& base_size(o) <= u64::MAX
    &&& leveled_reads_ok(s.l0_sstables@, s.levels_spec(), s.sstables@, o)
}

/// The task leveled compaction generates on a snapshot.
pub open spec fn leveled_task_spec(o: LeveledCompactionOptions, s: LsmStorageState, r: Option<LeveledCompactionTask>) -> bool {
    match leveled_task(s.l0_sstables@, s.levels_spec(), s.sstables@, o) {
        Some((upper_level, upper_ids, lower_level, lower_ids, bottom)) => {
            &&& r is Some
            &&& r->0.upper_level == upper_level
            &&& r->0.upper_level_sst_ids@ == upper_ids
            &&& r->0.lower_level == lower_level
            &&& r->0.lower_level_sst_ids@ == lower_ids
            &&& r->0.is_lower_level_bottom_level == bottom
        },
        None => r is None,
    }
}

/// The levels named by the task exist; outside replay, with an output to
/// place, the upper inputs are known, and so is each kept SST of the lower level
/// that the search for the output's place reads.
pub open spec fn leveled_apply_ok(snapshot: LsmStorageState, task: LeveledCompactionTask, output: Seq<usize>, in_recovery: bool) -> bool {
    &&& task.upper_level matches Some(u) ==> 1 <= u <= snapshot.levels@.len()
    &&& 1 <= task.lower_level <= snapshot.levels@.len()
    &&& output.len() > 0 && !in_recovery ==> {
        &&& task.upper_level_sst_ids@.len() > 0
        &&& ids_in_map(snapshot.sstables@, task.upper_level_sst_ids@)
        &&& scan_in_map(
            snapshot.sstables@,
            apply_levels(
                snapshot.levels_spec(),
                task.upper_level,
                task.upper_level_sst_ids@,
                task.lower_level,
                task.lower_level_sst_ids@,
                Seq::empty(),
            )[task.lower_level - 1].1,
            min_first_key(snapshot.sstables@, task.upper_level_sst_ids@),
        )
    }
}

/// The state and files to remove after applying a leveled compaction.
pub open spec fn leveled_apply_spec(
    snapshot: LsmStorageState,
    task: LeveledCompactionTask,
    output: Seq<usize>,
    in_recovery: bool,
    r: (LsmStorageState, Vec<usize>),
) -> bool {
    &&& r.1@ == task.upper_level_sst_ids@ + task.lower_level_sst_ids@
    &&& r.0.sstables@ == snapshot.sstables@
    &&& r.0.imm_memtables@ == snapshot.imm_memtables@
    &&& r.0.l0_sstables@ == if task.upper_level is None {
        ids_without(snapshot.l0_sstables@, task.upper_level_sst_ids@)
    } else {
        snapshot.l0_sstables@
    }
    &&& r.0.levels_spec() == leveled_apply_levels(
        snapshot.levels_spec(),
        snapshot.sstables@,
        task.upper_level,
        task.upper_level_sst_ids@,
        task.lower_level,
        task.lower_level_sst_ids@,
        output,
        in_recovery,
    )
}

impl LeveledCompactionController {
    pub closed spec fn options_spec(&self) -> LeveledCompactionOptions {
        self.options
    }

    /// The options the controller was made with.
    pub fn options(&self) -> (r: &LeveledCompactionOptions)
        ensures
            *r == self.options_spec(),
    {
        &self.options
    }

    pub fn new(options: LeveledCompactionOptions) -> (c: Self)
        ensures
            c.options_spec() == options,
    {
        Self { options }
    }

    /// Computes the actual size of each level.
    fn level_real_sizes(&self, snapshot: &LsmStorageState) -> (r: Vec<u64>)
        requires
            leveled_state_ok(*snapshot),
        ensures
            r@.len() == snapshot.levels@.len(),
            forall|i: int| 0 <= i < r@.len() ==> r@[i] == #[trigger] real_sizes(snapshot.sstables@, snapshot.levels_spec())[i],
    {
        level_real_sizes_of(&snapshot.sstables, &snapshot.levels)
    }

    /// The target size of each level, in bytes.
    fn compute_target_size(&self, snapshot: &LsmStorageState) -> (r: Vec<u64>)
        requires
            leveled_state_ok(*snapshot),
            base_size(self.options_spec()) <= u64::MAX,
        ensures
            r@.len() == snapshot.levels@.len(),
            forall|i: int| 0 <= i < r@.len() ==> r@[i] == #[trigger] state_targets(snapshot.sstables@, snapshot.levels_spec(), self.options_spec())[i],
    {
        let n = snapshot.levels.len();
        if n == 0 {
            return Vec::new();
        }
        let sizes_vec = self.level_real_sizes(snapshot);
        let ghost sz = real_sizes(snapshot.sstables@, snapshot.levels_spec());
        let ghost o = self.options_spec();
        assert(self.options.base_level_size_mb as int * 1024 * 1024 <= u64::MAX);
        let base: u64 = self.options.base_level_size_mb as u64 * 1024 * 1024;
        let mul: u64 = if self.options.level_size_multiplier >= 1 { self.options.level_size_multiplier as u64 } else { 1 };
        let ghost ts = target_sizes(sz, base as int, mul as int);
        assert(ts == state_targets(snapshot.sstables@, snapshot.levels_spec(), o));
        let mut target: Vec<u64> = vec![0u64; n];
        let last = n - 1;
        let bottom = sizes_vec[last];
        assert(sz.len() == n);
        if bottom < base {
            target.set(last, base);
            return target;
        }
        target.set(last, bottom);
        proof {
            lemma_target_nonneg(bottom as int, base as int, mul as int, 0);
        }
        let mut i: usize = last;
        while i > 0
            invariant
                n == sz.len(),
                n == snapshot.levels@.len(),
                ts == state_targets(snapshot.sstables@, snapshot.levels_spec(), self.options_spec()),
                last == n - 1,
                ts == target_sizes(sz, base as int, mul as int),
                sz[last as int] == bottom,
                bottom >= base,
                mul >= 1,
                target@.len() == n,
                i <= last,
                forall|j: int| i <= j <= last ==> target@[j] == #[trigger] ts[j],
                forall|j: int| 0 <= j < i ==> target@[j] == 0,
                i < last ==> target@[i as int] >= base,
            decreases i,
        {
            i = i - 1;
            let v = target[i + 1] / mul;
            target.set(i, v);
            proof {
                let d = (last - i) as nat;
                assert(ts[i + 1] == target_from_bottom(bottom as int, base as int, mul as int, (d - 1) as nat));
                assert(target_from_bottom(bottom as int, base as int, mul as int, d) == v);
            }
            if v < base {
                proof {
                    assert forall|j: int| 0 <= j < i implies target@[j] == #[trigger] ts[j] by {
                        lemma_target_stops(bottom as int, base as int, mul as int, (last - i) as nat, (last - j) as nat);
                    }
                }
                return target;
            }
        }
        target
    }

    /// The SSTs of level `in_level` whose key ranges meet the key span of the SSTs `sst_ids`.
    fn find_overlapping_ssts(&self, snapshot: &LsmStorageState, sst_ids: &[usize], in_level: usize) -> (r: Vec<usize>)
        requires
            ids_in_map(snapshot.sstables@, sst_ids@),
            sst_ids@.len() > 0 ==> 1 <= in_level <= snapshot.levels@.len()
                && ids_in_map(snapshot.sstables@, snapshot.levels_spec()[in_level - 1].1),
        ensures
            r@ == overlapping_ssts(snapshot.sstables@, sst_ids@, snapshot.levels_spec()[in_level - 1].1),
    {
        if sst_ids.len() == 0 {
            return Vec::new();
        }
        let min_key = min_first_key_of(&snapshot.sstables, sst_ids);
        let max_key = max_last_key_of(&snapshot.sstables, sst_ids);
        assert(snapshot.levels_spec()[in_level - 1].1 == snapshot.levels@[in_level - 1].1@);
        filter_overlapping(&snapshot.sstables, snapshot.levels[in_level - 1].1.as_slice(), min_key, max_key)
    }

    /// The level that level 0 is compacted into: the first level with a target size.
    fn decide_base_level(&self, snapshot: &LsmStorageState) -> (r: usize)
        requires
            leveled_state_ok(*snapshot),
            base_size(self.options_spec()) <= u64::MAX,
        ensures
            r == base_level(state_targets(snapshot.sstables@, snapshot.levels_spec(), self.options_spec()), self.options_spec().max_levels),
    {
        let targets = self.compute_target_size(snapshot);
        let ghost ts = state_targets(snapshot.sstables@, snapshot.levels_spec(), self.options_spec());
        assert(snapshot.levels_spec().len() == snapshot.levels@.len());
        assert(ts.len() == snapshot.levels@.len());
        let mut i: usize = 0;
        while i < targets.len()
            invariant
                ts == state_targets(snapshot.sstables@, snapshot.levels_spec(), self.options_spec()),
                targets@.len() == ts.len(),
                forall|k: int| 0 <= k < targets@.len() ==> targets@[k] == #[trigger] ts[k],
                i <= targets@.len(),
                forall|k: int| 0 <= k < i ==> ts[k] <= 0,
            decreases targets@.len() - i,
        {
            if targets[i] > 0 {
                proof {
                    lemma_first_positive_found(ts, 0, i as int);
                }
                return i + 1;
            }
            i = i + 1;
        }
        proof {
            lemma_first_positive_none(ts, 0);
        }
        self.options.max_levels
    }

    /// Generates a compaction task: level 0 into the base level when level 0 holds
    /// at least the trigger number of SSTs; else the first SST of the level that
    /// most overfills its target size (if one does) into the level below it,
    /// with the SSTs there that overlap it.
    /// Decides whether the levels that generating a task reads all exist.
    pub fn reads_existing_levels(&self, snapshot: &LsmStorageState) -> (r: bool)
        requires
            leveled_state_ok(*snapshot),
            base_size(self.options_spec()) <= u64::MAX,
        ensures
            r == leveled_reads_ok(snapshot.l0_sstables@, snapshot.levels_spec(), snapshot.sstables@, self.options_spec()),
    {
        let ghost m = snapshot.sstables@;
        let ghost lv = snapshot.levels_spec();
        let ghost o = self.options_spec();
        let ghost sz = real_sizes(m, lv);
        let ghost ts = state_targets(m, lv, o);
        assert(lv.len() == snapshot.levels@.len());
        assert(sz.len() == lv.len());
        assert(ts.len() == lv.len());
        let n = snapshot.levels.len();
        if snapshot.l0_sstables.len() >= self.options.level0_file_num_compaction_trigger {
            let lower = self.decide_base_level(snapshot);
            return 1 <= lower && lower <= n;
        }
        if self.options.max_levels < 1 || self.options.max_levels - 1 > n {
            return false;
        }
        let sizes_vec = self.level_real_sizes(snapshot);
        let targets = self.compute_target_size(snapshot);
        let best = best_level(sizes_vec.as_slice(), targets.as_slice(), self.options.max_levels - 1, Ghost(sz), Ghost(ts));
        match best {
            None => true,
            Some(u) => {
                proof {
                    lemma_best_level_range(sz, ts, o.max_levels - 1, 0, None);
                    assert(lv[u as int].1 == snapshot.levels@[u as int].1@);
                }
                snapshot.levels[u].1.len() == 0 || u + 1 < n
            },
        }
    }

    pub fn generate_compaction_task(&self, snapshot: &LsmStorageState) -> (r: Option<LeveledCompactionTask>)
        requires
            leveled_generate_ok(self.options_spec(), *snapshot),
        ensures
            leveled_task_spec(self.options_spec(), *snapshot, r),
    {
        let ghost m = snapshot.sstables@;
        let ghost lv = snapshot.levels_spec();
        let ghost o = self.options_spec();
        let ghost sz = real_sizes(m, lv);
        let ghost ts = state_targets(m, lv, o);
        assert(lv.len() == snapshot.levels@.len());
        assert(sz.len() == lv.len());
        assert(ts.len() == lv.len());
        if snapshot.l0_sstables.len() >= self.options.level0_file_num_compaction_trigger {
            let lower_level = self.decide_base_level(snapshot);
            proof {
                if let Some(i) = first_positive(ts, 0) {
                    lemma_first_positive_range(ts, 0);
                }
                assert(ids_in_map(m, lv[lower_level - 1].1));
            }
            let lower_level_sst_ids = self.find_overlapping_ssts(snapshot, snapshot.l0_sstables.as_slice(), lower_level);
            return Some(LeveledCompactionTask {
                upper_level: None,
                upper_level_sst_ids: slice_to_vec(snapshot.l0_sstables.as_slice()),
                lower_level,
                lower_level_sst_ids,
                is_lower_level_bottom_level: lower_level == self.options.max_levels,
            });
        }
        let sizes_vec = self.level_real_sizes(snapshot);
        let targets = self.compute_target_size(snapshot);
        let best = best_level(sizes_vec.as_slice(), targets.as_slice(), self.options.max_levels - 1, Ghost(sz), Ghost(ts));
        let upper_idx = match best {
            Some(b) => b,
            None => {
                return None;
            },
        };
        proof {
            lemma_best_level_range(sz, ts, o.max_levels - 1, 0, None);
        }
        if snapshot.levels[upper_idx].1.len() == 0 {
            assert(lv[upper_idx as int].1 == snapshot.levels@[upper_idx as int].1@);
            return None;
        }
        let upper_sst_id = snapshot.levels[upper_idx].1[0];
        let upper_level_sst_ids = vec![upper_sst_id];
        let lower_level = upper_idx + 2;
        proof {
            assert(lv[upper_idx as int].1 == snapshot.levels@[upper_idx as int].1@);
            assert(upper_level_sst_ids@ =~= seq![lv[upper_idx as int].1[0]]);
            assert(ids_in_map(m, lv[upper_idx as int].1));
            assert(ids_in_map(m, lv[lower_level - 1].1));
        }
        let lower_level_sst_ids = self.find_overlapping_ssts(snapshot, upper_level_sst_ids.as_slice(), lower_level);
        Some(LeveledCompactionTask {
            upper_level: Some(upper_idx + 1),
            upper_level_sst_ids,
            lower_level,
            lower_level_sst_ids,
            is_lower_level_bottom_level: lower_level == self.options.max_levels,
        })
    }

    /// Applies the compaction result: the upper inputs leave the upper level (or
    /// level 0, keeping SSTs flushed meanwhile), the lower inputs leave the lower
    /// level, and the output takes their place there: appended while replaying
    /// (no SST metadata yet), else before the first SST whose last key reaches
    /// the upper inputs' smallest first key. All inputs are the files to remove;
    /// the SST map is unchanged.
    pub fn apply_compaction_result(
        &self,
        snapshot: &LsmStorageState,
        task: &LeveledCompactionTask,
        output: &[usize],
        in_recovery: bool,
    ) -> (r: (LsmStorageState, Vec<usize>))
        requires
            leveled_apply_ok(*snapshot, *task, output@, in_recovery),
        ensures
            leveled_apply_spec(*snapshot, *task, output@, in_recovery, r),
    {
        let ghost m = snapshot.sstables@;
        let ghost lv = snapshot.levels_spec();
        let mut new_state = snapshot.clone();
        assert(new_state.levels@.len() == new_state.levels_spec().len());
        let mut files_to_remove: Vec<usize> = Vec::new();
        append_ids(&mut files_to_remove, task.upper_level_sst_ids.as_slice());
        append_ids(&mut files_to_remove, task.lower_level_sst_ids.as_slice());
        match task.upper_level {
            Some(upper_level) => {
                let upper_idx = upper_level - 1;
                let mut ids = slice_to_vec(new_state.levels[upper_idx].1.as_slice());
                retain_ids_not_in(&mut ids, task.upper_level_sst_ids.as_slice());
                replace_level_ids(&mut new_state.levels, upper_idx, ids);
                assert(new_state.levels@.len() == new_state.levels_spec().len());
            },
            None => {
                retain_ids_not_in(&mut new_state.l0_sstables, task.upper_level_sst_ids.as_slice());
            },
        }
        let ghost lv1 = apply_levels(lv, task.upper_level, task.upper_level_sst_ids@, task.lower_level, task.lower_level_sst_ids@, Seq::empty());
        let lower_idx = task.lower_level - 1;
        let mut kept = slice_to_vec(new_state.levels[lower_idx].1.as_slice());
        retain_ids_not_in(&mut kept, task.lower_level_sst_ids.as_slice());
        proof {
            assert(kept@ =~= lv1[lower_idx as int].1);
        }
        let mut new_ids: Vec<usize> = Vec::new();
        if output.len() == 0 {
            new_ids = kept;
        } else if in_recovery {
            append_ids(&mut kept, output);
            new_ids = kept;
        } else {
            let upper_min = min_first_key_of(&snapshot.sstables, task.upper_level_sst_ids.as_slice());
            let pos = first_last_key_at_least_exec(&snapshot.sstables, kept.as_slice(), upper_min);
            append_ids(&mut new_ids, vstd::slice::slice_subrange(kept.as_slice(), 0, pos));
            append_ids(&mut new_ids, output);
            append_ids(&mut new_ids, vstd::slice::slice_subrange(kept.as_slice(), pos, kept.len()));
        }
        replace_level_ids(&mut new_state.levels, lower_idx, new_ids);
        proof {
            assert(new_state.levels_spec() =~= leveled_apply_levels(lv, m, task.upper_level, task.upper_level_sst_ids@, task.lower_level, task.lower_level_sst_ids@, output@, in_recovery));
        }
        (new_state, files_to_remove)
    }
}

} // verus!
