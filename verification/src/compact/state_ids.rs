//! The SST ids of the storage state: each named once, each known to the SST map,
//! and each below the next id to hand out; compaction keeps it so.

use super::leveled::{lemma_leveled_task_shape, leveled_apply_levels, leveled_lower_ids};
use super::simple_leveled::{apply_levels, lemma_simple_first_trigger_range, lemma_simple_scan_found};
use super::tiered::{all_tier_ids, lemma_tiered_task_range, leading_newer, max_tier_id, tiered_apply_levels, tiered_task, tiers_without};
use super::{
    generate_ok, generated, id_after, l0_after, levels_after, removed_after, sstables_after, storage_ok, task_ids_in_map,
    CompactionController, CompactionTask,
};
use crate::lsm_storage::{
    ids_in_map, ids_of, ids_without, insert_ssts, levels_in_map, levels_view, removed_present, remove_ids, LsmStorageState,
};
use crate::table::SsTable;
use std::sync::Arc;
use vstd::prelude::*;

verus! {

/// The number of times `x` occurs in `s`.
pub open spec fn occ(s: Seq<usize>, x: usize) -> nat
    decreases s.len(),
{
    if s.len() == 0 {
        0
    } else {
        occ(s.drop_last(), x) + if s.last() == x { 1nat } else { 0nat }
    }
}

/// Occurrences add up over a concatenation.
pub proof fn lemma_occ_append(a: Seq<usize>, b: Seq<usize>, x: usize)
    ensures
        occ(a + b, x) == occ(a, x) + occ(b, x),
    decreases b.len(),
{
    if b.len() == 0 {
        assert(a + b =~= a);
    } else {
        assert((a + b).drop_last() =~= a + b.drop_last());
        lemma_occ_append(a, b.drop_last(), x);
    }
}

/// An id occurs in a sequence exactly when the sequence contains it.
pub proof fn lemma_occ_contains(s: Seq<usize>, x: usize)
    ensures
        occ(s, x) > 0 <==> s.contains(x),
    decreases s.len(),
{
    if s.len() > 0 {
        lemma_occ_contains(s.drop_last(), x);
        if s.drop_last().contains(x) {
            let j = choose|j: int| 0 <= j < s.drop_last().len() && s.drop_last()[j] == x;
            assert(s[j] == x);
        }
        if s.contains(x) && s.last() != x {
            let j = choose|j: int| 0 <= j < s.len() && s[j] == x;
            assert(s.drop_last()[j] == x);
        }
        if s.last() == x {
            assert(s[s.len() - 1] == x);
        }
    }
}

/// Without duplicates, every id occurs at most once.
pub proof fn lemma_occ_no_duplicates(s: Seq<usize>, x: usize)
    requires
        s.no_duplicates(),
    ensures
        occ(s, x) <= 1,
    decreases s.len(),
{
    if s.len() > 0 {
        let init = s.drop_last();
        assert(init.no_duplicates()) by {
            assert forall|i: int, j: int| 0 <= i < init.len() && 0 <= j < init.len() && i != j implies init[i] != init[j] by {
                assert(init[i] == s[i]);
                assert(init[j] == s[j]);
            }
        }
        lemma_occ_no_duplicates(init, x);
        if s.last() == x {
            if init.contains(x) {
                let j = choose|j: int| 0 <= j < init.len() && init[j] == x;
                assert(s[j] == s[s.len() - 1]);
            }
            lemma_occ_contains(init, x);
        }
    }
}

/// Every id occurring at most once means no duplicates.
pub proof fn lemma_no_duplicates_from_occ(s: Seq<usize>)
    requires
        forall|x: usize| occ(s, x) <= 1,
    ensures
        s.no_duplicates(),
    decreases s.len(),
{
    if s.len() > 0 {
        let init = s.drop_last();
        assert forall|x: usize| occ(init, x) <= 1 by {
            assert(occ(s, x) <= 1);
        }
        lemma_no_duplicates_from_occ(init);
        assert forall|i: int, j: int| 0 <= i < s.len() && 0 <= j < s.len() && i != j implies s[i] != s[j] by {
            if i < s.len() - 1 && j < s.len() - 1 {
                assert(init[i] == s[i]);
                assert(init[j] == s[j]);
            } else {
                let k = if i < j { i } else { j };
                let x = s.last();
                if s[i] == s[j] {
                    assert(init[k] == x);
                    lemma_occ_contains(init, x);
                    assert(occ(s, x) <= 1);
                }
            }
        }
    }
}

/// Keeping the ids that satisfy `p` keeps all occurrences of an id that does, and
/// none of one that does not.
pub proof fn lemma_occ_filter(s: Seq<usize>, p: spec_fn(usize) -> bool, x: usize)
    ensures
        occ(s.filter(p), x) == if p(x) { occ(s, x) } else { 0 },
    decreases s.len(),
{
    reveal(Seq::filter);
    if s.len() > 0 {
        lemma_occ_filter(s.drop_last(), p, x);
        let prev = s.drop_last().filter(p);
        if p(s.last()) {
            assert(prev.push(s.last()).drop_last() =~= prev);
        }
    }
}

/// All SST ids of tiers one after the other add up over a concatenation.
pub proof fn lemma_all_tier_ids_append(a: Seq<(usize, Seq<usize>)>, b: Seq<(usize, Seq<usize>)>)
    ensures
        all_tier_ids(a + b) == all_tier_ids(a) + all_tier_ids(b),
    decreases b.len(),
{
    if b.len() == 0 {
        assert(a + b =~= a);
        assert(all_tier_ids(a) + all_tier_ids(b) =~= all_tier_ids(a));
    } else {
        assert((a + b).drop_last() =~= a + b.drop_last());
        lemma_all_tier_ids_append(a, b.drop_last());
        assert(all_tier_ids(a + b) =~= all_tier_ids(a) + all_tier_ids(b));
    }
}

/// The ids of one tier.
pub proof fn lemma_all_tier_ids_single(t: (usize, Seq<usize>))
    ensures
        all_tier_ids(seq![t]) == t.1,
{
    let none = Seq::<(usize, Seq<usize>)>::empty();
    assert(seq![t].drop_last() =~= none);
    assert(all_tier_ids(none) =~= Seq::<usize>::empty());
    assert(seq![t].last() == t);
    assert(all_tier_ids(seq![t]) =~= t.1);
}

/// Replacing tier `i` trades its occurrences for those of the new tier.
pub proof fn lemma_occ_update(lv: Seq<(usize, Seq<usize>)>, i: int, t: (usize, Seq<usize>), x: usize)
    requires
        0 <= i < lv.len(),
    ensures
        occ(all_tier_ids(lv.update(i, t)), x) + occ(lv[i].1, x) == occ(all_tier_ids(lv), x) + occ(t.1, x),
{
    let pre = lv.take(i);
    let post = lv.skip(i + 1);
    assert(lv =~= pre + seq![lv[i]] + post);
    assert(lv.update(i, t) =~= pre + seq![t] + post);
    lemma_all_tier_ids_append(pre + seq![lv[i]], post);
    lemma_all_tier_ids_append(pre, seq![lv[i]]);
    lemma_all_tier_ids_append(pre + seq![t], post);
    lemma_all_tier_ids_append(pre, seq![t]);
    lemma_all_tier_ids_single(lv[i]);
    lemma_all_tier_ids_single(t);
    let a = all_tier_ids(pre);
    let c = all_tier_ids(post);
    lemma_occ_append(a + lv[i].1, c, x);
    lemma_occ_append(a, lv[i].1, x);
    lemma_occ_append(a + t.1, c, x);
    lemma_occ_append(a, t.1, x);
}

/// Each tier's occurrences are among those of all tiers.
pub proof fn lemma_occ_tier_le(lv: Seq<(usize, Seq<usize>)>, i: int, x: usize)
    requires
        0 <= i < lv.len(),
    ensures
        occ(lv[i].1, x) <= occ(all_tier_ids(lv), x),
{
    lemma_occ_update(lv, i, (lv[i].0, Seq::empty()), x);
}

/// Inserting a tier adds its occurrences.
pub proof fn lemma_occ_insert(lv: Seq<(usize, Seq<usize>)>, p: int, t: (usize, Seq<usize>), x: usize)
    requires
        0 <= p <= lv.len(),
    ensures
        occ(all_tier_ids(lv.insert(p, t)), x) == occ(all_tier_ids(lv), x) + occ(t.1, x),
{
    let pre = lv.take(p);
    let post = lv.skip(p);
    assert(lv =~= pre + post);
    assert(lv.insert(p, t) =~= pre + seq![t] + post);
    lemma_all_tier_ids_append(pre, post);
    lemma_all_tier_ids_append(pre + seq![t], post);
    lemma_all_tier_ids_append(pre, seq![t]);
    lemma_all_tier_ids_single(t);
    let a = all_tier_ids(pre);
    let c = all_tier_ids(post);
    lemma_occ_append(a, c, x);
    lemma_occ_append(a + t.1, c, x);
    lemma_occ_append(a, t.1, x);
}

/// Keeping some of the tiers keeps at most the occurrences of all of them.
pub proof fn lemma_occ_tiers_filter(lv: Seq<(usize, Seq<usize>)>, q: spec_fn((usize, Seq<usize>)) -> bool, x: usize)
    ensures
        occ(all_tier_ids(lv.filter(q)), x) <= occ(all_tier_ids(lv), x),
    decreases lv.len(),
{
    reveal(Seq::filter);
    if lv.len() > 0 {
        let init = lv.drop_last();
        lemma_occ_tiers_filter(init, q, x);
        let prev = init.filter(q);
        assert(all_tier_ids(lv) == all_tier_ids(init) + lv.last().1);
        lemma_occ_append(all_tier_ids(init), lv.last().1, x);
        if q(lv.last()) {
            assert(prev.push(lv.last()).drop_last() =~= prev);
            lemma_occ_append(all_tier_ids(prev), lv.last().1, x);
        }
    }
}

/// Removing the ids of `r` removes every occurrence of those ids.
pub proof fn lemma_occ_ids_without(ids: Seq<usize>, r: Seq<usize>, x: usize)
    ensures
        occ(ids_without(ids, r), x) == if r.contains(x) { 0 } else { occ(ids, x) },
{
    lemma_occ_filter(ids, |y: usize| !r.contains(y), x);
}

/// The occurrences after a compaction from `upper_level` (level 0 when `None`)
/// into `lower_level`: those of the inputs leave their level and those of the
/// output come in.
pub proof fn lemma_occ_apply_levels(
    lv: Seq<(usize, Seq<usize>)>,
    upper_level: Option<usize>,
    upper_ids: Seq<usize>,
    lower_level: usize,
    lower_ids: Seq<usize>,
    output: Seq<usize>,
    x: usize,
)
    requires
        1 <= lower_level <= lv.len(),
        upper_level matches Some(u) ==> 1 <= u <= lv.len() && u != lower_level,
    ensures
        occ(all_tier_ids(apply_levels(lv, upper_level, upper_ids, lower_level, lower_ids, output)), x)
            + (match upper_level {
                Some(u) => if upper_ids.contains(x) { occ(lv[u - 1].1, x) } else { 0 },
                None => 0,
            })
            + (if lower_ids.contains(x) { occ(lv[lower_level - 1].1, x) } else { 0 })
            == occ(all_tier_ids(lv), x) + occ(output, x),
{
    let lv1 = match upper_level {
        Some(u) => lv.update(u - 1, (lv[u - 1].0, ids_without(lv[u - 1].1, upper_ids))),
        None => lv,
    };
    if let Some(u) = upper_level {
        lemma_occ_update(lv, u - 1, (lv[u - 1].0, ids_without(lv[u - 1].1, upper_ids)), x);
        lemma_occ_ids_without(lv[u - 1].1, upper_ids, x);
    }
    assert(lv1[lower_level - 1] == lv[lower_level - 1]);
    let kept = ids_without(lv1[lower_level - 1].1, lower_ids);
    lemma_occ_update(lv1, lower_level - 1, (lv1[lower_level - 1].0, kept + output), x);
    lemma_occ_ids_without(lv1[lower_level - 1].1, lower_ids, x);
    lemma_occ_append(kept, output, x);
}

/// The occurrences in the lower level of a leveled compaction: those kept and
/// those of the output.
pub proof fn lemma_occ_leveled_lower(
    m: Map<usize, std::sync::Arc<crate::table::SsTable>>,
    kept: Seq<usize>,
    upper_ids: Seq<usize>,
    output: Seq<usize>,
    in_recovery: bool,
    x: usize,
)
    ensures
        occ(leveled_lower_ids(m, kept, upper_ids, output, in_recovery), x) == occ(kept, x) + occ(output, x),
{
    if output.len() == 0 {
        assert(occ(output, x) == 0);
    } else if in_recovery {
        lemma_occ_append(kept, output, x);
    } else {
        let pos = super::leveled::first_last_key_at_least(m, kept, super::leveled::min_first_key(m, upper_ids));
        lemma_first_last_key_range(m, kept, super::leveled::min_first_key(m, upper_ids));
        assert(kept =~= kept.take(pos) + kept.skip(pos));
        lemma_occ_append(kept.take(pos), kept.skip(pos), x);
        lemma_occ_append(kept.take(pos) + output, kept.skip(pos), x);
        lemma_occ_append(kept.take(pos), output, x);
    }
}

proof fn lemma_first_last_key_range(m: Map<usize, std::sync::Arc<crate::table::SsTable>>, ids: Seq<usize>, key: Seq<u8>)
    ensures
        0 <= super::leveled::first_last_key_at_least(m, ids, key) <= ids.len(),
    decreases ids.len(),
{
    if ids.len() > 0 {
        lemma_first_last_key_range(m, ids.drop_first(), key);
    }
}

proof fn lemma_leading_newer_range(lv: Seq<(usize, Seq<usize>)>, bound: int)
    ensures
        0 <= leading_newer(lv, bound) <= lv.len(),
    decreases lv.len(),
{
    if lv.len() > 0 {
        lemma_leading_newer_range(lv.drop_first(), bound);
    }
}

/// A removed id is one of the ids that were removed.
pub proof fn lemma_removed_present_in(m: Map<usize, std::sync::Arc<crate::table::SsTable>>, ids: Seq<usize>, x: usize)
    requires
        removed_present(m, ids).contains(x),
    ensures
        ids.contains(x),
    decreases ids.len(),
{
    if ids.len() > 0 {
        let prev = removed_present(m, ids.drop_last());
        if x == ids.last() {
            assert(ids[ids.len() - 1] == x);
        } else {
            if remove_ids(m, ids.drop_last()).contains_key(ids.last()) {
                let j = choose|j: int| 0 <= j < prev.push(ids.last()).len() && prev.push(ids.last())[j] == x;
                assert(prev[j] == x);
            }
            lemma_removed_present_in(m, ids.drop_last(), x);
            let j = choose|j: int| 0 <= j < ids.drop_last().len() && ids.drop_last()[j] == x;
            assert(ids[j] == x);
        }
    }
}

/// All SST ids of the state: level 0's, then each level's.
pub open spec fn state_ids(s: LsmStorageState) -> Seq<usize> {
    s.l0_sstables@ + all_tier_ids(s.levels_spec())
}

/// All SST ids of the state after the task is applied with the given output.
pub open spec fn ids_after(s: LsmStorageState, task: CompactionTask, output: Seq<usize>) -> Seq<usize> {
    l0_after(s, task) + all_tier_ids(levels_after(s, task, output))
}

/// After the task, no id occurs more often than before plus in the output, and
/// an id the task removes occurs only in the output.
pub open spec fn occ_after_ok(s: LsmStorageState, task: CompactionTask, output: Seq<usize>) -> bool {
    forall|x: usize| {
        &&& #[trigger] occ(ids_after(s, task, output), x) <= occ(state_ids(s), x) + occ(output, x)
        &&& removed_after(s.sstables@, task).contains(x) ==> occ(ids_after(s, task, output), x) <= occ(output, x)
    }
}

/// A full compaction of level 0 and level 1 moves every occurrence of their
/// ids out of the state.
pub proof fn lemma_full_occ(s: LsmStorageState, task: CompactionTask, output: Seq<usize>)
    requires
        state_ids(s).no_duplicates(),
        s.levels@.len() > 0,
        task matches CompactionTask::ForceFullCompaction { l0_sstables, l1_sstables }
            && l0_sstables@ == s.l0_sstables@ && l1_sstables@ == s.levels_spec()[0].1,
    ensures
        occ_after_ok(s, task, output),
{
    let lv = s.levels_spec();
    let l0 = s.l0_sstables@;
    assert(lv.len() == s.levels@.len());
    assert forall|x: usize| {
        &&& #[trigger] occ(ids_after(s, task, output), x) <= occ(state_ids(s), x) + occ(output, x)
        &&& removed_after(s.sstables@, task).contains(x) ==> occ(ids_after(s, task, output), x) <= occ(output, x)
    } by {
        lemma_occ_no_duplicates(state_ids(s), x);
        lemma_occ_append(l0, all_tier_ids(lv), x);
        lemma_occ_ids_without(l0, l0, x);
        lemma_occ_contains(l0, x);
        lemma_occ_update(lv, 0, (lv[0].0, output), x);
        lemma_occ_tier_le(lv, 0, x);
        lemma_occ_contains(lv[0].1, x);
        lemma_occ_append(ids_without(l0, l0), all_tier_ids(levels_after(s, task, output)), x);
        if removed_after(s.sstables@, task).contains(x) {
            lemma_removed_present_in(s.sstables@, l0 + lv[0].1, x);
            let j = choose|j: int| 0 <= j < (l0 + lv[0].1).len() && (l0 + lv[0].1)[j] == x;
            if j >= l0.len() {
                assert(lv[0].1[j - l0.len()] == x);
            } else {
                assert(l0[j] == x);
            }
        }
    }
}

/// An id in a concatenation is in one of the parts.
proof fn lemma_contains_append(a: Seq<usize>, b: Seq<usize>, x: usize)
    ensures
        (a + b).contains(x) <==> a.contains(x) || b.contains(x),
{
    lemma_occ_append(a, b, x);
    lemma_occ_contains(a + b, x);
    lemma_occ_contains(a, x);
    lemma_occ_contains(b, x);
}

/// Occurrences in the leveled compaction's result.
proof fn lemma_occ_leveled_levels(
    lv: Seq<(usize, Seq<usize>)>,
    m: Map<usize, std::sync::Arc<crate::table::SsTable>>,
    upper_level: Option<usize>,
    upper_ids: Seq<usize>,
    lower_level: usize,
    lower_ids: Seq<usize>,
    output: Seq<usize>,
    x: usize,
)
    requires
        1 <= lower_level <= lv.len(),
        upper_level matches Some(u) ==> 1 <= u <= lv.len() && u != lower_level,
    ensures
        occ(all_tier_ids(leveled_apply_levels(lv, m, upper_level, upper_ids, lower_level, lower_ids, output, false)), x)
            == occ(all_tier_ids(apply_levels(lv, upper_level, upper_ids, lower_level, lower_ids, Seq::empty())), x) + occ(output, x),
{
    let lv1 = apply_levels(lv, upper_level, upper_ids, lower_level, lower_ids, Seq::empty());
    let kept = lv1[lower_level - 1].1;
    let lower = leveled_lower_ids(m, kept, upper_ids, output, false);
    lemma_occ_update(lv1, lower_level - 1, (lv1[lower_level - 1].0, lower), x);
    lemma_occ_leveled_lower(m, kept, upper_ids, output, false, x);
}

/// Occurrences in the tiered compaction's result, when the compacted tiers are
/// the leading `k` tiers.
proof fn lemma_occ_tiered_levels(lv: Seq<(usize, Seq<usize>)>, k: int, bottom: bool, output: Seq<usize>, x: usize)
    requires
        0 <= k <= lv.len(),
        all_tier_ids(lv).no_duplicates(),
    ensures
        occ(all_tier_ids(tiered_apply_levels(lv, lv.take(k), bottom, output)), x) <= occ(all_tier_ids(lv), x) + occ(output, x),
        all_tier_ids(lv.take(k)).contains(x) ==> occ(all_tier_ids(tiered_apply_levels(lv, lv.take(k), bottom, output)), x) <= occ(output, x),
{
    let tiers = lv.take(k);
    let ids = tiers.map_values(|t: (usize, Seq<usize>)| t.0);
    let q = |t: (usize, Seq<usize>)| !ids.contains(t.0);
    let kept = tiers_without(lv, ids);
    lemma_occ_tiers_filter(lv, q, x);
    let t = (output[0], output);
    let result = tiered_apply_levels(lv, tiers, bottom, output);
    if output.len() > 0 {
        if bottom {
            assert(kept.push(t) =~= kept.insert(kept.len() as int, t));
            lemma_occ_insert(kept, kept.len() as int, t, x);
        } else {
            let p = leading_newer(kept, max_tier_id(tiers));
            lemma_leading_newer_range(kept, max_tier_id(tiers));
            lemma_occ_insert(kept, p, t, x);
        }
    }
    assert(occ(all_tier_ids(result), x) <= occ(all_tier_ids(kept), x) + occ(output, x));
    if all_tier_ids(tiers).contains(x) {
        let rest = lv.skip(k);
        assert(lv =~= tiers + rest);
        lemma_all_tier_ids_append(tiers, rest);
        lemma_occ_append(all_tier_ids(tiers), all_tier_ids(rest), x);
        lemma_occ_contains(all_tier_ids(tiers), x);
        lemma_occ_no_duplicates(all_tier_ids(lv), x);
        Seq::filter_distributes_over_add(tiers, rest, q);
        assert forall|j: int| 0 <= j < tiers.len() implies !q(#[trigger] tiers[j]) by {
            assert(ids[j] == tiers[j].0);
        }
        tiers.lemma_all_neg_filter_empty(q);
        assert(tiers.filter(q) =~= Seq::<(usize, Seq<usize>)>::empty());
        assert(kept =~= rest.filter(q));
        lemma_occ_tiers_filter(rest, q, x);
    }
}

/// A task that a strategy generates moves every occurrence of its input ids out
/// of the state, when the state names each id once.
pub proof fn lemma_generated_occ(c: CompactionController, s: LsmStorageState, task: CompactionTask, output: Seq<usize>)
    requires
        storage_ok(s),
        generate_ok(c, s),
        generated(c, s, Some(task)),
        state_ids(s).no_duplicates(),
    ensures
        occ_after_ok(s, task, output),
{
    let lv = s.levels_spec();
    let l0 = s.l0_sstables@;
    let m = s.sstables@;
    assert(lv.len() == s.levels@.len());
    match (c, task) {
        (CompactionController::Simple(ctrl), CompactionTask::Simple(t)) => {
            let o = ctrl.options_spec();
            lemma_simple_first_trigger_range(lv, o.size_ratio_percent, o.max_levels as int, 0);
            if l0.len() < o.level0_file_num_compaction_trigger {
                lemma_simple_scan_found(lv, o.size_ratio_percent, o.max_levels as int, 0);
            }
            let up = t.upper_level_sst_ids@;
            let low = t.lower_level_sst_ids@;
            assert forall|x: usize| {
                &&& #[trigger] occ(ids_after(s, task, output), x) <= occ(state_ids(s), x) + occ(output, x)
                &&& removed_after(m, task).contains(x) ==> occ(ids_after(s, task, output), x) <= occ(output, x)
            } by {
                lemma_occ_no_duplicates(state_ids(s), x);
                lemma_occ_append(l0, all_tier_ids(lv), x);
                lemma_occ_apply_levels(lv, t.upper_level, up, t.lower_level, low, output, x);
                lemma_occ_append(l0_after(s, task), all_tier_ids(levels_after(s, task, output)), x);
                lemma_contains_append(up, low, x);
                lemma_occ_contains(up, x);
                lemma_occ_contains(low, x);
                lemma_occ_tier_le(lv, t.lower_level - 1, x);
                if let Some(u) = t.upper_level {
                    lemma_occ_tier_le(lv, u - 1, x);
                } else {
                    lemma_occ_ids_without(l0, up, x);
                }
            }
        },
        (CompactionController::Leveled(ctrl), CompactionTask::Leveled(t)) => {
            let o = ctrl.options_spec();
            lemma_leveled_task_shape(l0, lv, m, o);
            let up = t.upper_level_sst_ids@;
            let low = t.lower_level_sst_ids@;
            assert forall|x: usize| {
                &&& #[trigger] occ(ids_after(s, task, output), x) <= occ(state_ids(s), x) + occ(output, x)
                &&& removed_after(m, task).contains(x) ==> occ(ids_after(s, task, output), x) <= occ(output, x)
            } by {
                lemma_occ_no_duplicates(state_ids(s), x);
                lemma_occ_append(l0, all_tier_ids(lv), x);
                lemma_occ_apply_levels(lv, t.upper_level, up, t.lower_level, low, Seq::empty(), x);
                lemma_occ_leveled_levels(lv, m, t.upper_level, up, t.lower_level, low, output, x);
                lemma_occ_append(l0_after(s, task), all_tier_ids(levels_after(s, task, output)), x);
                lemma_contains_append(up, low, x);
                lemma_occ_contains(up, x);
                lemma_occ_contains(low, x);
                lemma_occ_tier_le(lv, t.lower_level - 1, x);
                let lower_run = lv[t.lower_level - 1].1;
                if up.len() > 0 {
                    let lo = super::leveled::min_first_key(m, up);
                    let hi = super::leveled::max_last_key(m, up);
                    lemma_occ_filter(lower_run, |id: usize| super::leveled::sst_overlaps(*m[id], lo, hi), x);
                }
                lemma_occ_contains(lower_run, x);
                if let Some(u) = t.upper_level {
                    lemma_occ_tier_le(lv, u - 1, x);
                    assert(lv[u - 1].1[0] == up[0]);
                    lemma_occ_contains(lv[u - 1].1, x);
                } else {
                    lemma_occ_ids_without(l0, up, x);
                }
            }
        },
        (CompactionController::Tiered(ctrl), CompactionTask::Tiered(t)) => {
            let o = ctrl.options_spec();
            lemma_tiered_task_range(lv, o);
            let k = (tiered_task(lv, o)->0).0;
            assert(levels_view(t.tiers@) == lv.take(k));
            assert forall|x: usize| {
                &&& #[trigger] occ(ids_after(s, task, output), x) <= occ(state_ids(s), x) + occ(output, x)
                &&& removed_after(m, task).contains(x) ==> occ(ids_after(s, task, output), x) <= occ(output, x)
            } by {
                lemma_occ_no_duplicates(state_ids(s), x);
                assert(all_tier_ids(lv).no_duplicates()) by {
                    assert forall|x2: usize| occ(all_tier_ids(lv), x2) <= 1 by {
                        lemma_occ_no_duplicates(state_ids(s), x2);
                        lemma_occ_append(l0, all_tier_ids(lv), x2);
                    }
                    lemma_no_duplicates_from_occ(all_tier_ids(lv));
                }
                lemma_occ_append(l0, all_tier_ids(lv), x);
                lemma_occ_tiered_levels(lv, k, t.bottom_tier_included, output, x);
                lemma_occ_append(l0_after(s, task), all_tier_ids(levels_after(s, task, output)), x);
                if removed_after(m, task).contains(x) {
                    lemma_occ_contains(all_tier_ids(lv.take(k)), x);
                    let rest = lv.skip(k);
                    assert(lv =~= lv.take(k) + rest);
                    lemma_all_tier_ids_append(lv.take(k), rest);
                    lemma_occ_append(all_tier_ids(lv.take(k)), all_tier_ids(rest), x);
                }
            }
        },
        _ => {},
    }
}

/// The state names each SST once, and every SST of the map has an id below `next`.
pub open spec fn ids_ok(s: LsmStorageState, next: usize) -> bool {
    &&& state_ids(s).no_duplicates()
    &&& forall|id: usize| #[trigger] s.sstables@.contains_key(id) ==> id < next
}

/// Without wrapping around, the id handed out `i` ids after `start` is `start + i`.
pub proof fn lemma_id_after(start: usize, i: nat)
    requires
        start + i <= usize::MAX,
    ensures
        id_after(start, i) == start + i,
    decreases i,
{
    if i > 0 {
        lemma_id_after(start, (i - 1) as nat);
    }
}

/// The keys after inserting SSTs: the old keys and the SSTs' ids.
proof fn lemma_insert_ssts_keys(m: Map<usize, Arc<SsTable>>, ssts: Seq<Arc<SsTable>>, x: usize)
    ensures
        insert_ssts(m, ssts).contains_key(x) <==> m.contains_key(x) || ids_of(ssts).contains(x),
    decreases ssts.len(),
{
    if ssts.len() > 0 {
        let init = ssts.drop_last();
        lemma_insert_ssts_keys(m, init, x);
        assert(ids_of(ssts) =~= ids_of(init).push(ssts.last().id));
        lemma_contains_append(ids_of(init), seq![ssts.last().id], x);
        assert(ids_of(init).push(ssts.last().id) =~= ids_of(init) + seq![ssts.last().id]);
        assert(seq![ssts.last().id][0] == ssts.last().id);
        if seq![ssts.last().id].contains(x) {
            let j = choose|j: int| 0 <= j < 1 && seq![ssts.last().id][j] == x;
        }
    }
}

/// The keys after removing ids: the old keys that are not among them.
proof fn lemma_remove_ids_keys(m: Map<usize, Arc<SsTable>>, ids: Seq<usize>, x: usize)
    ensures
        remove_ids(m, ids).contains_key(x) <==> m.contains_key(x) && !ids.contains(x),
    decreases ids.len(),
{
    if ids.len() > 0 {
        lemma_remove_ids_keys(m, ids.drop_last(), x);
        assert(ids =~= ids.drop_last() + seq![ids.last()]);
        lemma_contains_append(ids.drop_last(), seq![ids.last()], x);
        if seq![ids.last()].contains(x) {
            let j = choose|j: int| 0 <= j < 1 && seq![ids.last()][j] == x;
        }
        assert(seq![ids.last()][0] == ids.last());
    }
}

/// An id that is in the map when removed is among the removed ones.
proof fn lemma_removed_present_has(m: Map<usize, Arc<SsTable>>, ids: Seq<usize>, x: usize)
    requires
        ids.contains(x),
        m.contains_key(x),
    ensures
        removed_present(m, ids).contains(x),
    decreases ids.len(),
{
    let init = ids.drop_last();
    let prev = removed_present(m, init);
    if init.contains(x) {
        lemma_removed_present_has(m, init, x);
        let j = choose|j: int| 0 <= j < prev.len() && prev[j] == x;
        if remove_ids(m, init).contains_key(ids.last()) {
            assert(prev.push(ids.last())[j] == x);
        }
    } else {
        let j = choose|j: int| 0 <= j < ids.len() && ids[j] == x;
        if j < ids.len() - 1 {
            assert(init[j] == x);
        }
        lemma_remove_ids_keys(m, init, x);
        assert(prev.push(ids.last())[prev.len() as int] == x);
    }
}

/// An id of a tier is among all ids of the tiers.
proof fn lemma_tier_contains(lv: Seq<(usize, Seq<usize>)>, i: int, x: usize)
    requires
        0 <= i < lv.len(),
        lv[i].1.contains(x),
    ensures
        all_tier_ids(lv).contains(x),
{
    lemma_occ_tier_le(lv, i, x);
    lemma_occ_contains(lv[i].1, x);
    lemma_occ_contains(all_tier_ids(lv), x);
}

/// An id among all ids of tiers whose ids are in the map is in the map.
proof fn lemma_tiers_in_map(m: Map<usize, Arc<SsTable>>, lv: Seq<(usize, Seq<usize>)>, x: usize)
    requires
        levels_in_map(m, lv),
        all_tier_ids(lv).contains(x),
    ensures
        m.contains_key(x),
    decreases lv.len(),
{
    let init = lv.drop_last();
    assert(all_tier_ids(lv) == all_tier_ids(init) + lv.last().1);
    lemma_contains_append(all_tier_ids(init), lv.last().1, x);
    if all_tier_ids(init).contains(x) {
        assert forall|i: int| 0 <= i < init.len() implies ids_in_map(m, #[trigger] init[i].1) by {
            assert(init[i] == lv[i]);
        }
        lemma_tiers_in_map(m, init, x);
    } else {
        assert(ids_in_map(m, lv[lv.len() - 1].1));
        let j = choose|j: int| 0 <= j < lv.last().1.len() && lv.last().1[j] == x;
    }
}

/// Installing a compaction's result keeps the state's SST ids consistent: each
/// SST the state names is named once and is in the map, and every SST of the map
/// has an id below the next id to hand out. This holds when the task removes
/// every occurrence of its inputs from the state, removes only SSTs of the map,
/// and the new SSTs take the next ids without wrapping around.
pub proof fn lemma_install_keeps_ids(s: LsmStorageState, next: usize, task: CompactionTask, new_ssts: Seq<Arc<SsTable>>)
    requires
        storage_ok(s),
        ids_ok(s, next),
        occ_after_ok(s, task, ids_of(new_ssts)),
        forall|x: usize| removed_after(s.sstables@, task).contains(x) ==> s.sstables@.contains_key(x),
        forall|i: int| 0 <= i < new_ssts.len() ==> (#[trigger] new_ssts[i]).id == id_after(next, i as nat),
        next + new_ssts.len() <= usize::MAX,
    ensures
        ({
            let m2 = sstables_after(s.sstables@, task, new_ssts);
            let l0 = l0_after(s, task);
            let lv = levels_after(s, task, ids_of(new_ssts));
            &&& ids_in_map(m2, l0)
            &&& levels_in_map(m2, lv)
            &&& (l0 + all_tier_ids(lv)).no_duplicates()
            &&& forall|id: usize| #[trigger] m2.contains_key(id) ==> id < next + new_ssts.len()
        }),
{
    let m = s.sstables@;
    let out = ids_of(new_ssts);
    let removed = removed_after(m, task);
    let base = match task {
        CompactionTask::ForceFullCompaction { l0_sstables, l1_sstables } => remove_ids(m, l0_sstables@ + l1_sstables@),
        _ => m,
    };
    let m2 = sstables_after(m, task, new_ssts);
    let l0 = l0_after(s, task);
    let lv = levels_after(s, task, out);
    let after = ids_after(s, task, out);
    assert(m2 == remove_ids(insert_ssts(base, new_ssts), removed));
    // The new SSTs take the ids from `next` on.
    assert forall|x: usize| out.contains(x) <==> next <= x < next + new_ssts.len() by {
        if out.contains(x) {
            let j = choose|j: int| 0 <= j < out.len() && out[j] == x;
            lemma_id_after(next, j as nat);
        }
        if next <= x < next + new_ssts.len() {
            let j = x - next;
            lemma_id_after(next, j as nat);
            assert(out[j] == x);
        }
    }
    assert forall|x: usize| occ(out, x) <= 1 by {
        assert forall|i: int, j: int| 0 <= i < out.len() && 0 <= j < out.len() && i != j implies out[i] != out[j] by {
            lemma_id_after(next, i as nat);
            lemma_id_after(next, j as nat);
        }
        lemma_occ_no_duplicates(out, x);
    }
    // The old ids are below `next`: ids of the state are in the map.
    assert forall|x: usize| state_ids(s).contains(x) implies m.contains_key(x) by {
        lemma_contains_append(s.l0_sstables@, all_tier_ids(s.levels_spec()), x);
        if s.l0_sstables@.contains(x) {
            let j = choose|j: int| 0 <= j < s.l0_sstables@.len() && s.l0_sstables@[j] == x;
        } else {
            lemma_tiers_in_map(m, s.levels_spec(), x);
        }
    }
    // Every id the state names after the task is in the new map, once.
    assert forall|x: usize| after.contains(x) implies m2.contains_key(x) && occ(after, x) <= 1 by {
        lemma_occ_contains(after, x);
        lemma_occ_contains(out, x);
        lemma_occ_contains(state_ids(s), x);
        lemma_occ_no_duplicates(state_ids(s), x);
        assert(occ(after, x) <= occ(state_ids(s), x) + occ(out, x));
        lemma_insert_ssts_keys(base, new_ssts, x);
        lemma_remove_ids_keys(insert_ssts(base, new_ssts), removed, x);
        if removed.contains(x) {
            assert(m.contains_key(x));
        }
        if let CompactionTask::ForceFullCompaction { l0_sstables, l1_sstables } = task {
            lemma_remove_ids_keys(m, l0_sstables@ + l1_sstables@, x);
            if !out.contains(x) && (l0_sstables@ + l1_sstables@).contains(x) {
                lemma_removed_present_has(m, l0_sstables@ + l1_sstables@, x);
            }
        }
        if out.contains(x) {
            if m.contains_key(x) {
                assert(x < next);
            }
            if state_ids(s).contains(x) {
                assert(m.contains_key(x));
            }
        }
    }
    assert forall|i: int| 0 <= i < l0.len() implies m2.contains_key(#[trigger] l0[i]) by {
        lemma_contains_append(l0, all_tier_ids(lv), l0[i]);
        assert(l0.contains(l0[i]));
    }
    assert forall|i: int| 0 <= i < lv.len() implies ids_in_map(m2, #[trigger] lv[i].1) by {
        assert forall|j: int| 0 <= j < lv[i].1.len() implies m2.contains_key(#[trigger] lv[i].1[j]) by {
            let x = lv[i].1[j];
            assert(lv[i].1.contains(x));
            lemma_tier_contains(lv, i, x);
            lemma_contains_append(l0, all_tier_ids(lv), x);
        }
    }
    assert forall|x: usize| occ(after, x) <= 1 by {
        lemma_occ_contains(after, x);
        if after.contains(x) {
        }
    }
    lemma_no_duplicates_from_occ(after);
    assert forall|id: usize| #[trigger] m2.contains_key(id) implies id < next + new_ssts.len() by {
        lemma_remove_ids_keys(insert_ssts(base, new_ssts), removed, id);
        lemma_insert_ssts_keys(base, new_ssts, id);
        if let CompactionTask::ForceFullCompaction { l0_sstables, l1_sstables } = task {
            lemma_remove_ids_keys(m, l0_sstables@ + l1_sstables@, id);
        }
    }
}

/// The SSTs still in the map when removed are SSTs of the map.
proof fn lemma_removed_present_keys(m: Map<usize, Arc<SsTable>>, ids: Seq<usize>, x: usize)
    requires
        removed_present(m, ids).contains(x),
    ensures
        m.contains_key(x),
    decreases ids.len(),
{
    let init = ids.drop_last();
    let prev = removed_present(m, init);
    if prev.contains(x) {
        lemma_removed_present_keys(m, init, x);
    } else {
        let j = choose|j: int| 0 <= j < removed_present(m, ids).len() && removed_present(m, ids)[j] == x;
        if remove_ids(m, init).contains_key(ids.last()) {
            if j < prev.len() {
                assert(prev[j] == x);
            }
            lemma_remove_ids_keys(m, init, x);
        } else {
            assert(prev[j] == x);
        }
    }
}

/// The SSTs that a task over SSTs of the map removes are SSTs of the map.
pub proof fn lemma_removed_in_map(m: Map<usize, Arc<SsTable>>, task: CompactionTask)
    requires
        task_ids_in_map(m, task),
    ensures
        forall|x: usize| #[trigger] removed_after(m, task).contains(x) ==> m.contains_key(x),
{
    assert forall|x: usize| #[trigger] removed_after(m, task).contains(x) implies m.contains_key(x) by {
        match task {
            CompactionTask::ForceFullCompaction { l0_sstables, l1_sstables } => {
                lemma_removed_present_keys(m, l0_sstables@ + l1_sstables@, x);
            },
            CompactionTask::Simple(t) => {
                lemma_contains_append(t.upper_level_sst_ids@, t.lower_level_sst_ids@, x);
                if t.upper_level_sst_ids@.contains(x) {
                    let j = choose|j: int| 0 <= j < t.upper_level_sst_ids@.len() && t.upper_level_sst_ids@[j] == x;
                } else {
                    let j = choose|j: int| 0 <= j < t.lower_level_sst_ids@.len() && t.lower_level_sst_ids@[j] == x;
                }
            },
            CompactionTask::Leveled(t) => {
                lemma_contains_append(t.upper_level_sst_ids@, t.lower_level_sst_ids@, x);
                if t.upper_level_sst_ids@.contains(x) {
                    let j = choose|j: int| 0 <= j < t.upper_level_sst_ids@.len() && t.upper_level_sst_ids@[j] == x;
                } else {
                    let j = choose|j: int| 0 <= j < t.lower_level_sst_ids@.len() && t.lower_level_sst_ids@[j] == x;
                }
            },
            CompactionTask::Tiered(t) => {
                lemma_tiers_in_map(m, levels_view(t.tiers@), x);
            },
        }
    }
}

} // verus!
