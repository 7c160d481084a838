//! Leveled compaction keeps a level in key order: the SSTs of a level follow one
//! another by key and their key ranges do not overlap, before and after a
//! compaction's output takes the place of its inputs.

use std::sync::Arc;

use super::leveled::{first_last_key_at_least, leveled_apply_levels, max_last_key, min_first_key, overlapping_ssts, sst_overlaps};
use crate::key::{key_le, key_lt, lemma_key_le_refl, lemma_key_le_total, lemma_key_le_trans, lemma_key_lt_le_trans, lemma_key_lt_trans};
use crate::lsm_storage::{ids_in_map, ids_without, lemma_ids_without_contains};
use crate::table::SsTable;
use vstd::prelude::*;

verus! {

/// The SSTs of `ids` follow one another in key order: the last key of each is
/// below the first key of every later one, so their key ranges do not overlap.
pub open spec fn run_in_key_order(m: Map<usize, Arc<SsTable>>, ids: Seq<usize>) -> bool {
    forall|i: int, j: int|
        0 <= i < j < ids.len() ==> key_lt(#[trigger] m[ids[i]].last_key_spec(), #[trigger] m[ids[j]].first_key_spec())
}

/// Each SST of `ids` starts at or below its last key.
pub open spec fn ranges_ok(m: Map<usize, Arc<SsTable>>, ids: Seq<usize>) -> bool {
    forall|i: int| 0 <= i < ids.len() ==> key_le(#[trigger] m[ids[i]].first_key_spec(), m[ids[i]].last_key_spec())
}

/// The key range of SST `o` lies within the keys of `inputs`: its first key is at
/// or above the first key of one of them, its last key at or below the last key
/// of one of them (as for an SST holding keys that the inputs held).
pub open spec fn within_inputs(m: Map<usize, Arc<SsTable>>, inputs: Seq<usize>, o: usize) -> bool {
    &&& exists|i: int| 0 <= i < inputs.len() && key_le(#[trigger] m[inputs[i]].first_key_spec(), m[o].first_key_spec())
    &&& exists|j: int| 0 <= j < inputs.len() && key_le(m[o].last_key_spec(), #[trigger] m[inputs[j]].last_key_spec())
}

proof fn lemma_filter_in_key_order(m: Map<usize, Arc<SsTable>>, ids: Seq<usize>, pred: spec_fn(usize) -> bool)
    requires
        run_in_key_order(m, ids),
    ensures
        run_in_key_order(m, ids.filter(pred)),
    decreases ids.len(),
{
    reveal(Seq::filter);
    if ids.len() > 0 {
        let init = ids.drop_last();
        assert forall|i: int, j: int| 0 <= i < j < init.len() implies key_lt(
            #[trigger] m[init[i]].last_key_spec(),
            #[trigger] m[init[j]].first_key_spec(),
        ) by {
            assert(init[i] == ids[i] && init[j] == ids[j]);
        }
        lemma_filter_in_key_order(m, init, pred);
        let f = init.filter(pred);
        if pred(ids.last()) {
            let g = f.push(ids.last());
            assert(ids.filter(pred) == g);
            assert forall|i: int, j: int| 0 <= i < j < g.len() implies key_lt(
                #[trigger] m[g[i]].last_key_spec(),
                #[trigger] m[g[j]].first_key_spec(),
            ) by {
                assert(g[i] == f[i]);
                if j < f.len() {
                    assert(g[j] == f[j]);
                } else {
                    assert(f.contains(f[i]));
                    init.lemma_filter_contains_rev(pred, f[i]);
                    let a = choose|a: int| 0 <= a < init.len() && init[a] == f[i];
                    assert(ids[a] == f[i]);
                    assert(g[j] == ids[ids.len() - 1]);
                }
            }
        }
    }
}

proof fn lemma_min_max_bounds(m: Map<usize, Arc<SsTable>>, ids: Seq<usize>, k: int)
    requires
        0 <= k < ids.len(),
    ensures
        key_le(min_first_key(m, ids), m[ids[k]].first_key_spec()),
        key_le(m[ids[k]].last_key_spec(), max_last_key(m, ids)),
    decreases ids.len(),
{
    let fk = m[ids[k]].first_key_spec();
    let lk = m[ids[k]].last_key_spec();
    if ids.len() == 1 {
        lemma_key_le_refl(fk);
        lemma_key_le_refl(lk);
    } else {
        let init = ids.drop_last();
        let rest_min = min_first_key(m, init);
        let rest_max = max_last_key(m, init);
        let f = m[ids.last()].first_key_spec();
        let l = m[ids.last()].last_key_spec();
        lemma_key_le_total(rest_min, f);
        lemma_key_le_total(rest_max, l);
        if k < ids.len() - 1 {
            lemma_min_max_bounds(m, init, k);
            assert(init[k] == ids[k]);
            if !key_le(rest_min, f) {
                lemma_key_le_trans(f, rest_min, fk);
            }
            if key_le(rest_max, l) {
                lemma_key_le_trans(lk, rest_max, l);
            }
        } else {
            lemma_key_le_refl(f);
            lemma_key_le_refl(l);
        }
    }
}

proof fn lemma_first_last_key_at_least(m: Map<usize, Arc<SsTable>>, ids: Seq<usize>, key: Seq<u8>)
    ensures
        0 <= first_last_key_at_least(m, ids, key) <= ids.len(),
        forall|i: int| 0 <= i < first_last_key_at_least(m, ids, key) ==> key_lt(#[trigger] m[ids[i]].last_key_spec(), key),
        first_last_key_at_least(m, ids, key) < ids.len() ==> key_le(key, m[ids[first_last_key_at_least(m, ids, key)]].last_key_spec()),
    decreases ids.len(),
{
    if ids.len() > 0 && !key_le(key, m[ids[0]].last_key_spec()) {
        let rest = ids.drop_first();
        lemma_first_last_key_at_least(m, rest, key);
        let p = first_last_key_at_least(m, ids, key);
        assert forall|i: int| 0 <= i < p implies key_lt(#[trigger] m[ids[i]].last_key_spec(), key) by {
            if i > 0 {
                assert(rest[i - 1] == ids[i]);
            }
        }
        if p < ids.len() {
            assert(rest[p - 1] == ids[p]);
        }
    }
}

/// A leveled compaction keeps its lower level in key order. Take a level whose
/// SSTs are in key order, upper inputs whose key span picks the level's
/// overlapping SSTs as the lower inputs (as the strategy generates them), and an
/// output in key order whose SSTs each lie within the keys of the inputs. Outside
/// of recovery the output goes before the first kept SST whose last key reaches
/// the upper inputs' smallest first key, and the level stays in key order.
pub proof fn lemma_leveled_apply_keeps_key_order(
    lv: Seq<(usize, Seq<usize>)>,
    m: Map<usize, Arc<SsTable>>,
    upper_level: Option<usize>,
    upper_ids: Seq<usize>,
    lower_level: usize,
    output: Seq<usize>,
)
    requires
        1 <= lower_level <= lv.len(),
        upper_level matches Some(u) ==> 1 <= u <= lv.len() && u != lower_level,
        upper_ids.len() > 0,
        ids_in_map(m, upper_ids),
        ids_in_map(m, lv[lower_level - 1].1),
        run_in_key_order(m, lv[lower_level - 1].1),
        ranges_ok(m, lv[lower_level - 1].1),
        ids_in_map(m, output),
        run_in_key_order(m, output),
        forall|k: int|
            0 <= k < output.len() ==> within_inputs(
                m,
                upper_ids + overlapping_ssts(m, upper_ids, lv[lower_level - 1].1),
                #[trigger] output[k],
            ),
    ensures
        run_in_key_order(
            m,
            leveled_apply_levels(
                lv,
                m,
                upper_level,
                upper_ids,
                lower_level,
                overlapping_ssts(m, upper_ids, lv[lower_level - 1].1),
                output,
                false,
            )[lower_level - 1].1,
        ),
{
    broadcast use vstd::seq_lib::group_filter_ensures;

    let level = lv[lower_level - 1].1;
    let lo = min_first_key(m, upper_ids);
    let hi = max_last_key(m, upper_ids);
    let lower_ids = overlapping_ssts(m, upper_ids, level);
    let inputs = upper_ids + lower_ids;
    let kept = ids_without(level, lower_ids);
    let pos = first_last_key_at_least(m, kept, lo);
    let res = leveled_apply_levels(lv, m, upper_level, upper_ids, lower_level, lower_ids, output, false)[lower_level - 1].1;
    assert(lower_ids == level.filter(|id: usize| sst_overlaps(*m[id], lo, hi)));
    assert(kept == level.filter(|x: usize| !lower_ids.contains(x)));
    lemma_filter_in_key_order(m, level, |x: usize| !lower_ids.contains(x));
    lemma_first_last_key_at_least(m, kept, lo);
    if output.len() == 0 {
        assert(res == kept);
        return;
    }
    assert(res == kept.take(pos) + output + kept.skip(pos));
    // Where each kept SST stands in the level, and that it misses the upper span.
    assert forall|c: int| 0 <= c < kept.len() implies {
        &&& level.contains(#[trigger] kept[c])
        &&& !sst_overlaps(*m[kept[c]], lo, hi)
    } by {
        lemma_ids_without_contains(level, lower_ids, kept[c]);
        assert(kept.contains(kept[c]));
        let a = choose|a: int| 0 <= a < level.len() && level[a] == kept[c];
        if sst_overlaps(*m[kept[c]], lo, hi) {
            assert(lower_ids.contains(level[a]));
        }
    }
    // A kept SST at or after `pos` ends at or above `lo`.
    assert forall|c: int| pos <= c < kept.len() implies key_le(lo, #[trigger] m[kept[c]].last_key_spec()) by {
        if c > pos {
            let a = choose|a: int| 0 <= a < level.len() && level[a] == kept[c];
            assert(ranges_ok(m, level));
            assert(m[level[a]].first_key_spec() == m[kept[c]].first_key_spec());
            assert(key_le(m[level[a]].first_key_spec(), m[level[a]].last_key_spec()));
            lemma_key_lt_le_trans(m[kept[pos]].last_key_spec(), m[kept[c]].first_key_spec(), m[kept[c]].last_key_spec());
            crate::key::lemma_key_lt_le(m[kept[pos]].last_key_spec(), m[kept[c]].last_key_spec());
            lemma_key_le_trans(lo, m[kept[pos]].last_key_spec(), m[kept[c]].last_key_spec());
        }
    }
    // A kept SST before `pos` ends below the first key of each output SST.
    assert forall|c: int, k: int| 0 <= c < pos && 0 <= k < output.len() implies key_lt(
        #[trigger] m[kept[c]].last_key_spec(),
        #[trigger] m[output[k]].first_key_spec(),
    ) by {
        let o = output[k];
        assert(within_inputs(m, inputs, o));
        let i = choose|i: int| 0 <= i < inputs.len() && key_le(#[trigger] m[inputs[i]].first_key_spec(), m[o].first_key_spec());
        let x = inputs[i];
        let kc = kept[c];
        if i < upper_ids.len() {
            assert(x == upper_ids[i]);
            lemma_min_max_bounds(m, upper_ids, i);
            lemma_key_le_trans(lo, m[x].first_key_spec(), m[o].first_key_spec());
            lemma_key_lt_le_trans(m[kc].last_key_spec(), lo, m[o].first_key_spec());
        } else {
            let b2 = i - upper_ids.len();
            assert(x == lower_ids[b2]);
            assert(lower_ids.contains(x));
            level.lemma_filter_contains_rev(|id: usize| sst_overlaps(*m[id], lo, hi), x);
            assert(sst_overlaps(*m[x], lo, hi));
            let b = choose|b: int| 0 <= b < level.len() && level[b] == x;
            let a = choose|a: int| 0 <= a < level.len() && level[a] == kc;
            lemma_ids_without_contains(level, lower_ids, kc);
            assert(kept.contains(kc));
            assert(a != b);
            if b < a {
                // x ends below where kc starts, and kc ends below `lo`, yet x reaches `lo`.
                assert(key_lt(m[level[b]].last_key_spec(), m[level[a]].first_key_spec()));
                assert(key_le(m[level[a]].first_key_spec(), m[level[a]].last_key_spec()));
                lemma_key_lt_le_trans(m[x].last_key_spec(), m[kc].first_key_spec(), m[kc].last_key_spec());
                lemma_key_lt_trans(m[x].last_key_spec(), m[kc].last_key_spec(), lo);
            } else {
                assert(key_lt(m[level[a]].last_key_spec(), m[level[b]].first_key_spec()));
                lemma_key_lt_le_trans(m[kc].last_key_spec(), m[x].first_key_spec(), m[o].first_key_spec());
            }
        }
    }
    // Each output SST ends below the first key of a kept SST at or after `pos`.
    assert forall|k: int, c: int| 0 <= k < output.len() && pos <= c < kept.len() implies key_lt(
        #[trigger] m[output[k]].last_key_spec(),
        #[trigger] m[kept[c]].first_key_spec(),
    ) by {
        let o = output[k];
        let kc = kept[c];
        assert(key_le(lo, m[kc].last_key_spec()));
        assert(!sst_overlaps(*m[kc], lo, hi));
        assert(key_lt(hi, m[kc].first_key_spec()));
        assert(within_inputs(m, inputs, o));
        let j = choose|j: int| 0 <= j < inputs.len() && key_le(m[o].last_key_spec(), #[trigger] m[inputs[j]].last_key_spec());
        let x = inputs[j];
        if j < upper_ids.len() {
            assert(x == upper_ids[j]);
            lemma_min_max_bounds(m, upper_ids, j);
            lemma_key_le_trans(m[o].last_key_spec(), m[x].last_key_spec(), hi);
            lemma_key_le_lt_trans(m[o].last_key_spec(), hi, m[kc].first_key_spec());
        } else {
            let b2 = j - upper_ids.len();
            assert(x == lower_ids[b2]);
            assert(lower_ids.contains(x));
            level.lemma_filter_contains_rev(|id: usize| sst_overlaps(*m[id], lo, hi), x);
            assert(sst_overlaps(*m[x], lo, hi));
            let b = choose|b: int| 0 <= b < level.len() && level[b] == x;
            let a = choose|a: int| 0 <= a < level.len() && level[a] == kc;
            lemma_ids_without_contains(level, lower_ids, kc);
            assert(kept.contains(kc));
            assert(a != b);
            if a < b {
                // kc would then end below where x starts, at or below `hi`, and so meet the span.
                assert(key_lt(m[level[a]].last_key_spec(), m[level[b]].first_key_spec()));
                assert(key_le(m[level[a]].first_key_spec(), m[level[a]].last_key_spec()));
                lemma_key_le_total(m[x].first_key_spec(), hi);
                lemma_key_lt_le_trans(m[kc].last_key_spec(), m[x].first_key_spec(), hi);
                lemma_key_le_lt_trans(m[kc].first_key_spec(), m[kc].last_key_spec(), hi);
                crate::key::lemma_key_lt_le(m[kc].first_key_spec(), hi);
                assert(sst_overlaps(*m[kc], lo, hi));
            } else {
                assert(key_lt(m[level[b]].last_key_spec(), m[level[a]].first_key_spec()));
                lemma_key_le_lt_trans(m[o].last_key_spec(), m[x].last_key_spec(), m[kc].first_key_spec());
            }
        }
    }
    let t = kept.take(pos);
    let s = kept.skip(pos);
    assert forall|i: int, j: int| 0 <= i < j < res.len() implies key_lt(
        #[trigger] m[res[i]].last_key_spec(),
        #[trigger] m[res[j]].first_key_spec(),
    ) by {
        let np = pos;
        let no = output.len() as int;
        if j < np {
            assert(res[i] == kept[i] && res[j] == kept[j]);
        } else if j < np + no {
            assert(res[j] == output[j - np]);
            if i < np {
                assert(res[i] == kept[i]);
            } else {
                assert(res[i] == output[i - np]);
            }
        } else {
            assert(res[j] == kept[j - no]);
            if i < np {
                assert(res[i] == kept[i]);
            } else if i < np + no {
                assert(res[i] == output[i - np]);
            } else {
                assert(res[i] == kept[i - no]);
            }
        }
    }
}

/// `a <= b < c` gives `a < c`.
proof fn lemma_key_le_lt_trans(a: Seq<u8>, b: Seq<u8>, c: Seq<u8>)
    requires
        key_le(a, b),
        key_lt(b, c),
    ensures
        key_lt(a, c),
{
    if key_le(c, a) {
        lemma_key_le_trans(c, a, b);
    }
}

} // verus!
