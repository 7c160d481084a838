//! The part of the storage engine's state that compaction reads and writes:
//! the SST ids of level 0 and of each lower level, and the SSTs by id.

use std::collections::{HashMap, HashSet};
use std::sync::Arc;

use crate::compact::{CompactionController, CompactionOptions};
use crate::table::SsTable;
use vstd::prelude::*;
use vstd::slice::slice_to_vec;

verus! {

/// A snapshot of the storage state.
pub struct LsmStorageState {
    /// The ids of the immutable memtables, from latest to earliest.
    pub imm_memtables: Vec<usize>,
    /// L0 SSTs, from latest to earliest.
    pub l0_sstables: Vec<usize>,
    /// SsTables sorted by key range; L1 - L_max for leveled compaction, or tiers for tiered
    /// compaction.
    pub levels: Vec<(usize, Vec<usize>)>,
    /// SST objects.
    pub sstables: HashMap<usize, Arc<SsTable>>,
}

/// The storage engine's options.
pub struct LsmStorageOptions {
    /// Block size in bytes.
    pub block_size: usize,
    /// SST size in bytes, also the approximate memtable capacity limit.
    pub target_sst_size: usize,
    /// Maximum number of memtables in memory; memtables beyond it are flushed to level 0.
    pub num_memtable_limit: usize,
    pub compaction_options: CompactionOptions,
}

/// The storage engine: its state, options, compaction strategy and the next SST id.
pub struct LsmStorageInner {
    pub state: LsmStorageState,
    pub options: LsmStorageOptions,
    pub compaction_controller: CompactionController,
    pub next_sst_id: usize,
}

/// The levels as (level or tier id, SST ids).
pub open spec fn levels_view(levels: Seq<(usize, Vec<usize>)>) -> Seq<(usize, Seq<usize>)> {
    Seq::new(levels.len(), |i: int| (levels[i].0, levels[i].1@))
}

impl LsmStorageState {
    /// The levels as (level or tier id, SST ids).
    pub open spec fn levels_spec(&self) -> Seq<(usize, Seq<usize>)> {
        levels_view(self.levels@)
    }

    /// Copies the state: the same L0 ids, levels and SST map.
    pub fn clone(&self) -> (s: Self)
        ensures
            s.imm_memtables@ == self.imm_memtables@,
            s.l0_sstables@ == self.l0_sstables@,
            s.levels_spec() == self.levels_spec(),
            s.sstables@ == self.sstables@,
    {
        let mut levels: Vec<(usize, Vec<usize>)> = Vec::new();
        let mut i: usize = 0;
        while i < self.levels.len()
            invariant
                i <= self.levels@.len(),
                levels@.len() == i,
                levels_view(levels@) =~= self.levels_spec().take(i as int),
            decreases self.levels@.len() - i,
        {
            let ids = slice_to_vec(self.levels[i].1.as_slice());
            let ghost before = levels@;
            levels.push((self.levels[i].0, ids));
            proof {
                assert(levels@ == before.push((self.levels@[i as int].0, ids)));
                assert(ids@ == self.levels@[i as int].1@);
                assert forall|j: int| 0 <= j <= i implies #[trigger] levels_view(levels@)[j] == self.levels_spec()[j] by {
                    if j < i {
                        assert(levels_view(before)[j] == self.levels_spec().take(i as int)[j]);
                        assert(levels@[j] == before[j]);
                    }
                }
                assert(levels_view(levels@) =~= self.levels_spec().take(i + 1));
            }
            i = i + 1;
        }
        LsmStorageState {
            imm_memtables: slice_to_vec(self.imm_memtables.as_slice()),
            l0_sstables: slice_to_vec(self.l0_sstables.as_slice()),
            levels,
            sstables: self.sstables.clone(),
        }
    }
}

/// Every id of `ids` names an SST of the map.
pub open spec fn ids_in_map(m: Map<usize, Arc<SsTable>>, ids: Seq<usize>) -> bool {
    forall|i: int| 0 <= i < ids.len() ==> m.contains_key(#[trigger] ids[i])
}

/// Every SST id of the levels names an SST of the map.
pub open spec fn levels_in_map(m: Map<usize, Arc<SsTable>>, lv: Seq<(usize, Seq<usize>)>) -> bool {
    forall|i: int| 0 <= i < lv.len() ==> ids_in_map(m, #[trigger] lv[i].1)
}

/// The SST with the given id.
pub fn get_sst(sstables: &HashMap<usize, Arc<SsTable>>, id: usize) -> (r: &Arc<SsTable>)
    requires
        sstables@.contains_key(id),
    ensures
        *r == sstables@[id],
{
    broadcast use vstd::std_specs::hash::group_hash_axioms;

    sstables.get(&id).unwrap()
}

broadcast use vstd::std_specs::hash::group_hash_axioms;

/// The set of the ids.
pub fn id_set(ids: &[usize]) -> (r: HashSet<usize>)
    ensures
        forall|x: usize| #[trigger] r@.contains(x) <==> ids@.contains(x),
{
    let mut set: HashSet<usize> = HashSet::new();
    let mut i: usize = 0;
    while i < ids.len()
        invariant
            i <= ids@.len(),
            forall|x: usize| #[trigger] set@.contains(x) <==> ids@.take(i as int).contains(x),
        decreases ids@.len() - i,
    {
        let x = ids[i];
        set.insert(x);
        proof {
            let t = ids@.take(i as int + 1);
            assert(t =~= ids@.take(i as int).push(x));
            assert forall|y: usize| #[trigger] set@.contains(y) <==> t.contains(y) by {
                if y == x {
                    assert(t[i as int] == x);
                } else if t.contains(y) {
                    let j = choose|j: int| 0 <= j < t.len() && t[j] == y;
                    assert(ids@.take(i as int)[j] == y);
                } else if ids@.take(i as int).contains(y) {
                    let j = choose|j: int| 0 <= j < i && ids@.take(i as int)[j] == y;
                    assert(t[j] == y);
                }
            }
        }
        i = i + 1;
    }
    proof {
        assert(ids@.take(ids@.len() as int) =~= ids@);
    }
    set
}

/// The ids of `ids` that are not in `remove`, in order.
pub open spec fn ids_without(ids: Seq<usize>, remove: Seq<usize>) -> Seq<usize> {
    ids.filter(|x: usize| !remove.contains(x))
}

/// What `ids_without` keeps: exactly the ids of `ids` not in `remove`.
pub proof fn lemma_ids_without_contains(ids: Seq<usize>, remove: Seq<usize>, x: usize)
    ensures
        ids_without(ids, remove).contains(x) <==> ids.contains(x) && !remove.contains(x),
    decreases ids.len(),
{
    reveal(Seq::filter);
    if ids.len() > 0 {
        lemma_ids_without_contains(ids.drop_last(), remove, x);
        let rest = ids_without(ids.drop_last(), remove);
        assert(ids =~= ids.drop_last().push(ids.last()));
        if ids.drop_last().contains(x) {
            let j = choose|j: int| 0 <= j < ids.drop_last().len() && ids.drop_last()[j] == x;
            assert(ids[j] == x);
        }
        if ids.contains(x) && ids.last() != x {
            let j = choose|j: int| 0 <= j < ids.len() && ids[j] == x;
            assert(ids.drop_last()[j] == x);
        }
        if !remove.contains(ids.last()) {
            assert(ids_without(ids, remove) == rest.push(ids.last()));
            if rest.push(ids.last()).contains(x) && ids.last() != x {
                let j = choose|j: int| 0 <= j < rest.push(ids.last()).len() && rest.push(ids.last())[j] == x;
                assert(rest[j] == x);
            }
            if rest.contains(x) {
                let j = choose|j: int| 0 <= j < rest.len() && rest[j] == x;
                assert(rest.push(ids.last())[j] == x);
            }
            assert(rest.push(ids.last())[rest.len() as int] == ids.last());
        }
    }
}

/// The ids kept by a filter name SSTs of the map when all ids do.
pub proof fn lemma_filter_in_map(m: Map<usize, Arc<SsTable>>, ids: Seq<usize>, pred: spec_fn(usize) -> bool)
    requires
        ids_in_map(m, ids),
    ensures
        ids_in_map(m, ids.filter(pred)),
    decreases ids.len(),
{
    reveal(Seq::filter);
    if ids.len() > 0 {
        assert(ids_in_map(m, ids.drop_last())) by {
            assert forall|i: int| 0 <= i < ids.drop_last().len() implies m.contains_key(#[trigger] ids.drop_last()[i]) by {
                assert(ids.drop_last()[i] == ids[i]);
            }
        }
        lemma_filter_in_map(m, ids.drop_last(), pred);
        let prev = ids.drop_last().filter(pred);
        if pred(ids.last()) {
            let out = prev.push(ids.last());
            assert forall|i: int| 0 <= i < out.len() implies m.contains_key(#[trigger] out[i]) by {
                if i < prev.len() {
                    assert(out[i] == prev[i]);
                } else {
                    assert(out[i] == ids[ids.len() - 1]);
                }
            }
        }
    }
}

/// Keeps the ids of `ids` that are not in `remove`, in order.
pub fn retain_ids_not_in(ids: &mut Vec<usize>, remove: &[usize])
    ensures
        final(ids)@ == ids_without(old(ids)@, remove@),
{
    let remove_set = id_set(remove);
    let mut kept: Vec<usize> = Vec::new();
    let mut i: usize = 0;
    while i < ids.len()
        invariant
            i <= ids@.len(),
            kept@ == ids_without(ids@.take(i as int), remove@),
            forall|x: usize| #[trigger] remove_set@.contains(x) <==> remove@.contains(x),
        decreases ids@.len() - i,
    {
        let x = ids[i];
        proof {
            reveal(Seq::filter);
            let t = ids@.take(i as int + 1);
            assert(t.drop_last() =~= ids@.take(i as int));
            assert(t.last() == x);
            assert(ids_without(t, remove@) == if !remove@.contains(x) {
                ids_without(ids@.take(i as int), remove@).push(x)
            } else {
                ids_without(ids@.take(i as int), remove@)
            });
        }
        if !remove_set.contains(&x) {
            kept.push(x);
        }
        i = i + 1;
    }
    proof {
        assert(ids@.take(ids@.len() as int) =~= ids@);
    }
    *ids = kept;
}

/// Replaces the SST ids of the level at `idx`, keeping its id.
pub fn replace_level_ids(levels: &mut Vec<(usize, Vec<usize>)>, idx: usize, ids: Vec<usize>)
    requires
        idx < old(levels)@.len(),
    ensures
        levels_view(final(levels)@) == levels_view(old(levels)@).update(
            idx as int,
            (old(levels)@[idx as int].0, ids@),
        ),
{
    let (level_id, _old_ids) = levels.remove(idx);
    levels.insert(idx, (level_id, ids));
    proof {
        assert(levels_view(levels@) =~= levels_view(old(levels)@).update(idx as int, (old(levels)@[idx as int].0, ids@)));
    }
}

/// Appends the ids of `src` to `dst`.
pub fn append_ids(dst: &mut Vec<usize>, src: &[usize])
    ensures
        final(dst)@ == old(dst)@ + src@,
{
    let mut i: usize = 0;
    while i < src.len()
        invariant
            i <= src@.len(),
            dst@ == old(dst)@ + src@.take(i as int),
        decreases src@.len() - i,
    {
        dst.push(src[i]);
        i = i + 1;
        proof {
            assert(dst@ =~= old(dst)@ + src@.take(i as int));
        }
    }
    proof {
        assert(src@.take(src@.len() as int) =~= src@);
    }
}

/// The map with each SST inserted under its id, one after the other.
pub open spec fn insert_ssts(m: Map<usize, Arc<SsTable>>, ssts: Seq<Arc<SsTable>>) -> Map<usize, Arc<SsTable>>
    decreases ssts.len(),
{
    if ssts.len() == 0 {
        m
    } else {
        insert_ssts(m, ssts.drop_last()).insert(ssts.last().id, ssts.last())
    }
}

/// The map with each id removed, one after the other.
pub open spec fn remove_ids(m: Map<usize, Arc<SsTable>>, ids: Seq<usize>) -> Map<usize, Arc<SsTable>>
    decreases ids.len(),
{
    if ids.len() == 0 {
        m
    } else {
        remove_ids(m, ids.drop_last()).remove(ids.last())
    }
}

/// The ids, in order, that are still in the map when they are removed one after
/// the other.
pub open spec fn removed_present(m: Map<usize, Arc<SsTable>>, ids: Seq<usize>) -> Seq<usize>
    decreases ids.len(),
{
    if ids.len() == 0 {
        Seq::empty()
    } else {
        let prev = removed_present(m, ids.drop_last());
        if remove_ids(m, ids.drop_last()).contains_key(ids.last()) {
            prev.push(ids.last())
        } else {
            prev
        }
    }
}

/// The ids of the SSTs, in order.
pub open spec fn ids_of(ssts: Seq<Arc<SsTable>>) -> Seq<usize> {
    Seq::new(ssts.len(), |i: int| ssts[i].id)
}

/// Inserts each SST under its id.
pub fn insert_all(m: &mut HashMap<usize, Arc<SsTable>>, ssts: &[Arc<SsTable>])
    ensures
        final(m)@ == insert_ssts(old(m)@, ssts@),
{
    broadcast use vstd::std_specs::hash::group_hash_axioms;

    let mut i: usize = 0;
    while i < ssts.len()
        invariant
            i <= ssts@.len(),
            m@ == insert_ssts(old(m)@, ssts@.take(i as int)),
        decreases ssts@.len() - i,
    {
        let sst = Arc::clone(&ssts[i]);
        m.insert(sst.sst_id(), sst);
        proof {
            assert(ssts@.take(i + 1).drop_last() =~= ssts@.take(i as int));
        }
        i = i + 1;
    }
    proof {
        assert(ssts@.take(ssts@.len() as int) =~= ssts@);
    }
}

/// Removes each id, and gives the ids that were present when removed.
pub fn remove_all(m: &mut HashMap<usize, Arc<SsTable>>, ids: &[usize]) -> (removed: Vec<usize>)
    ensures
        final(m)@ == remove_ids(old(m)@, ids@),
        removed@ == removed_present(old(m)@, ids@),
{
    broadcast use vstd::std_specs::hash::group_hash_axioms;

    let mut removed: Vec<usize> = Vec::new();
    let mut i: usize = 0;
    while i < ids.len()
        invariant
            i <= ids@.len(),
            m@ == remove_ids(old(m)@, ids@.take(i as int)),
            removed@ == removed_present(old(m)@, ids@.take(i as int)),
        decreases ids@.len() - i,
    {
        let id = ids[i];
        let r = m.remove(&id);
        proof {
            assert(ids@.take(i + 1).drop_last() =~= ids@.take(i as int));
        }
        if r.is_some() {
            removed.push(id);
        }
        i = i + 1;
    }
    proof {
        assert(ids@.take(ids@.len() as int) =~= ids@);
    }
    removed
}

} // verus!
