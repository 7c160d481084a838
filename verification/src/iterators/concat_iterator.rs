use std::sync::Arc;

use crate::block::iterator::seek_boundary;
use crate::iterators::StorageIterator;
use crate::key::{entries_strictly_sorted, key_lt, key_lt_exec, lemma_key_le_total};
use crate::table::{
    concat_entries, concat_start, lemma_concat_all, lemma_concat_index, lemma_concat_prefix, lemma_concat_step,
    lemma_table_keys, SsTable, SsTableIterator,
};
use vstd::prelude::*;

verus! {

/// The entries of each table.
pub open spec fn tables_entries(ts: Seq<Arc<SsTable>>) -> Seq<Seq<(Seq<u8>, Seq<u8>)>> {
    Seq::new(ts.len(), |i: int| ts[i].entries())
}

/// The entries of all tables, one table after the other.
pub open spec fn all_entries(ts: Seq<Arc<SsTable>>) -> Seq<(Seq<u8>, Seq<u8>)> {
    concat_entries(tables_entries(ts))
}

/// The table an `Arc` points to.
pub open spec fn table_of(t: Arc<SsTable>) -> SsTable {
    *t
}

/// Every table is well formed.
pub open spec fn tables_wf(ts: Seq<Arc<SsTable>>) -> bool {
    forall|i: int| 0 <= i < ts.len() ==> (#[trigger] ts[i]).wf()
}

/// The tables form a sorted run: each holds an entry, and their entries, one
/// table after the other, have strictly increasing keys (so their key ranges
/// are ordered and do not overlap).
pub open spec fn sorted_run(ts: Seq<Arc<SsTable>>) -> bool {
    &&& forall|i: int| 0 <= i < ts.len() ==> (#[trigger] ts[i]).entries().len() > 0
    &&& entries_strictly_sorted(all_entries(ts))
}

/// A sorted run after a first table that holds no entry and whose last key is
/// empty (as a table built with nothing added has).
pub open spec fn sorted_run_after_empty(ts: Seq<Arc<SsTable>>) -> bool {
    &&& ts.len() > 0
    &&& ts[0].entries().len() == 0
    &&& ts[0].last_key@.len() == 0
    &&& sorted_run(ts.drop_first())
}

/// The first table from index `i` on that holds an entry (the number of tables
/// when none does).
pub open spec fn first_with_entry(ts: Seq<Arc<SsTable>>, i: int) -> int
    decreases ts.len() - i,
{
    if i < 0 || i >= ts.len() {
        ts.len() as int
    } else if ts[i].entries().len() > 0 {
        i
    } else {
        first_with_entry(ts, i + 1)
    }
}

/// How far a scan for a table with an entry, starting at `i`, opens tables: up
/// to and including the first such table, or all of them when there is none.
pub open spec fn scan_end(ts: Seq<Arc<SsTable>>, i: int) -> int {
    if first_with_entry(ts, i) < ts.len() {
        first_with_entry(ts, i) + 1
    } else {
        ts.len() as int
    }
}

proof fn lemma_first_with_entry_at(ts: Seq<Arc<SsTable>>, a: int, j: int)
    requires
        0 <= a <= j <= ts.len(),
        forall|k: int| a <= k < j ==> (#[trigger] ts[k]).entries().len() == 0,
        j < ts.len() ==> ts[j].entries().len() > 0,
    ensures
        first_with_entry(ts, a) == j,
    decreases j - a,
{
    if a < j {
        lemma_first_with_entry_at(ts, a + 1, j);
    }
}

/// Concatenates iterators over tables ordered by key whose key ranges do not
/// overlap. A table's iterator is created only when it is reached.
pub struct SstConcatIterator {
    current: Option<SsTableIterator>,
    next_sst_idx: usize,
    sstables: Vec<Arc<SsTable>>,
    /// How many table iterators have been created so far.
    opened: Ghost<nat>,
}

impl SstConcatIterator {
    /// The tables iterated over.
    pub closed spec fn tables(&self) -> Seq<Arc<SsTable>> {
        self.sstables@
    }

    /// The index of the next table to open.
    pub closed spec fn next_index(&self) -> int {
        self.next_sst_idx as int
    }

    /// How many table iterators have been created so far.
    pub closed spec fn tables_opened(&self) -> nat {
        self.opened@
    }

    /// While valid, the current entry lies in the table just before
    /// `next_index()`: the tables from `next_index()` on have not been opened.
    pub proof fn lemma_current_table(&self)
        requires
            self.inv(),
        ensures
            self.remaining().len() > 0 ==> {
                &&& 1 <= self.next_index() <= self.tables().len()
                &&& concat_start(tables_entries(self.tables()), self.next_index() - 1) <= self.position()
                &&& self.position() < concat_start(tables_entries(self.tables()), self.next_index())
            },
    {
        self.lemma_remaining_head();
        if let Some(it) = self.current {
            let tes = tables_entries(self.sstables@);
            let j = self.next_sst_idx - 1;
            it.lemma_remaining();
            assert(tes[j as int] == it.table_spec().entries());
            lemma_concat_step(tes, j as int);
        }
    }

    /// The position of the current entry in the entries of all tables.
    pub closed spec fn position(&self) -> int {
        match self.current {
            Some(it) => concat_start(tables_entries(self.sstables@), self.next_sst_idx - 1) + it.position(),
            None => all_entries(self.sstables@).len() as int,
        }
    }

    /// Moves on to the first table from `next_sst_idx` on that has an entry.
    pub fn seek_to_next_sst(&mut self)
        requires
            tables_wf(old(self).tables()),
        ensures
            final(self).inv(),
            final(self).tables() == old(self).tables(),
            final(self).position() == if old(self).next_index() <= old(self).tables().len() {
                concat_start(tables_entries(old(self).tables()), old(self).next_index())
            } else {
                all_entries(old(self).tables()).len() as int
            },
            old(self).next_index() <= old(self).tables().len() ==> {
                &&& final(self).next_index() == scan_end(old(self).tables(), old(self).next_index())
                &&& final(self).tables_opened() == old(self).tables_opened() + final(self).next_index() - old(self).next_index()
            },
    {
        let ghost tes = tables_entries(self.sstables@);
        let ghost start0 = concat_start(tes, old(self).next_sst_idx as int);
        proof {
            lemma_concat_all(tes);
        }
        while self.next_sst_idx < self.sstables.len()
            invariant
                tes == tables_entries(self.sstables@),
                start0 == concat_start(tes, old(self).next_sst_idx as int),
                self.sstables@ == old(self).sstables@,
                tables_wf(self.sstables@),
                old(self).next_sst_idx <= self.next_sst_idx,
                old(self).next_sst_idx <= self.sstables@.len() ==> concat_start(tes, self.next_sst_idx as int) == start0,
                old(self).next_sst_idx <= self.sstables@.len() ==> self.next_sst_idx <= self.sstables@.len(),
                self.opened@ == old(self).opened@ + self.next_sst_idx - old(self).next_sst_idx,
                forall|k: int| old(self).next_sst_idx <= k < self.next_sst_idx ==> (#[trigger] self.sstables@[k]).entries().len() == 0,
            decreases self.sstables@.len() - self.next_sst_idx,
        {
            let idx = self.next_sst_idx;
            self.next_sst_idx = self.next_sst_idx + 1;
            let table = Arc::clone(&self.sstables[idx]);
            assert(*table == *self.sstables@[idx as int]);
            let iter = SsTableIterator::create_and_seek_to_first(table);
            proof {
                self.opened@ = self.opened@ + 1;
                iter.lemma_remaining();
                lemma_concat_step(tes, idx as int);
                assert(tes[idx as int] == self.sstables@[idx as int].entries());
            }
            if iter.is_valid() {
                self.current = Some(iter);
                proof {
                    iter.lemma_remaining();
                    assert(iter.position() == 0);
                    assert(self.position() == concat_start(tes, idx as int));
                    assert(old(self).next_sst_idx <= self.sstables@.len());
                    lemma_first_with_entry_at(self.sstables@, old(self).next_sst_idx as int, idx as int);
                }
                return;
            }
        }
        self.current = None;
        proof {
            lemma_concat_all(tes);
            if old(self).next_sst_idx <= self.sstables@.len() {
                lemma_first_with_entry_at(self.sstables@, old(self).next_sst_idx as int, self.sstables@.len() as int);
            }
        }
    }

    /// Creates the iterator at the first entry of the tables.
    pub fn create_and_seek_to_first(sstables: Vec<Arc<SsTable>>) -> (it: Self)
        requires
            tables_wf(sstables@),
        ensures
            it.inv(),
            it.tables() == sstables@,
            it.remaining() == all_entries(sstables@),
            it.next_index() == scan_end(sstables@, 0),
            it.tables_opened() == it.next_index(),
    {
        let mut iter = Self { current: None, next_sst_idx: 0, sstables, opened: Ghost(0) };
        iter.seek_to_next_sst();
        proof {
            assert(tables_entries(iter.sstables@).take(0) =~= Seq::<Seq<(Seq<u8>, Seq<u8>)>>::empty());
            assert(iter.remaining() =~= all_entries(iter.sstables@));
        }
        iter
    }
    /// Creates the iterator at the first entry whose key is `>= key`.
    pub fn create_and_seek_to_key(sstables: Vec<Arc<SsTable>>, key: &[u8]) -> (it: Self)
        requires
            tables_wf(sstables@),
        ensures
            it.inv(),
            it.tables() == sstables@,
            0 <= it.position() <= all_entries(sstables@).len(),
            it.remaining() == all_entries(sstables@).skip(it.position()),
            sorted_run(sstables@) || sorted_run_after_empty(sstables@) ==> seek_boundary(
                all_entries(sstables@),
                key@,
                it.position(),
            ),
            it.tables_opened() <= it.next_index(),
    {
        let ghost ts = sstables@;
        let ghost tes = tables_entries(ts);
        proof {
            lemma_concat_all(tes);
        }
        if sstables.len() == 0 {
            let it = Self { current: None, next_sst_idx: 0, sstables, opened: Ghost(0) };
            proof {
                assert(tes.take(0) =~= Seq::<Seq<(Seq<u8>, Seq<u8>)>>::empty());
                assert(it.remaining() =~= all_entries(ts).skip(it.position()));
            }
            return it;
        }
        // The first table whose last key is `>= key`.
        let n = sstables.len();
        let mut left: usize = 0;
        let mut right: usize = n;
        while left < right
            invariant
                ts == sstables@,
                n == ts.len(),
                left <= right <= n,
                left > 0 ==> key_lt(ts[left - 1].last_key@, key@),
                right < n ==> !key_lt(ts[right as int].last_key@, key@),
            decreases right - left,
        {
            let mid = left + (right - left) / 2;
            if key_lt_exec(sstables[mid].last_key(), key) {
                left = mid + 1;
            } else {
                right = mid;
            }
        }
        let mut iter = Self { current: None, next_sst_idx: left.saturating_add(1), sstables, opened: Ghost(0) };
        if left >= n {
            proof {
                if sorted_run(ts) {
                    lemma_concat_seek_past_end(ts, key@);
                } else if sorted_run_after_empty(ts) {
                    lemma_drop_empty_first(ts);
                    if n > 1 {
                        assert(ts.drop_first()[n - 2] == ts[n - 1]);
                        lemma_concat_seek_past_end(ts.drop_first(), key@);
                    }
                }
                assert(iter.remaining() =~= all_entries(ts).skip(iter.position()));
            }
            return iter;
        }
        let table = Arc::clone(&iter.sstables[left]);
        let sst_iter = SsTableIterator::create_and_seek_to_key(table, key);
        proof {
            iter.opened@ = 1;
        }
        if sst_iter.is_valid() {
            iter.current = Some(sst_iter);
            proof {
                sst_iter.lemma_remaining();
                lemma_concat_index(tes, left as int, sst_iter.position());
                lemma_concat_prefix(tes, left as int, n as int);
                if sorted_run(ts) {
                    lemma_concat_seek_found(ts, key@, left as int, sst_iter.position());
                } else if sorted_run_after_empty(ts) {
                    lemma_drop_empty_first(ts);
                    assert(left > 0);
                    lemma_seek_found_after_empty(ts, key@, left as int, sst_iter.position());
                }
            }
            return iter;
        }
        proof {
            sst_iter.lemma_remaining();
            if sorted_run(ts) {
                lemma_concat_seek_found(ts, key@, left as int, sst_iter.position());
            } else if sorted_run_after_empty(ts) && left > 0 {
                lemma_drop_empty_first(ts);
                lemma_seek_found_after_empty(ts, key@, left as int, sst_iter.position());
            }
        }
        iter.seek_to_next_sst();
        proof {
            lemma_concat_step(tes, left as int);
            lemma_concat_prefix(tes, left + 1, n as int);
            if !sorted_run(ts) && sorted_run_after_empty(ts) {
                // Only an empty key stops the search at the empty first table, and
                // every key is at least the empty key.
                assert(left == 0);
                assert(key@.len() == 0);
                assert(iter.position() == 0);
            }
        }
        iter
    }
}

/// Dropping an empty first part changes neither the entries nor, one index down,
/// where each later part starts.
proof fn lemma_concat_drop_empty_at(bs: Seq<Seq<(Seq<u8>, Seq<u8>)>>, j: int)
    requires
        bs.len() > 0,
        bs[0].len() == 0,
        0 <= j < bs.len(),
    ensures
        concat_entries(bs.take(j + 1)) == concat_entries(bs.drop_first().take(j)),
    decreases j,
{
    let rest = bs.drop_first();
    if j == 0 {
        assert(bs.take(1).drop_last() =~= bs.take(0));
        assert(concat_entries(bs.take(0)) =~= Seq::<(Seq<u8>, Seq<u8>)>::empty());
        assert(concat_entries(bs.take(1)) =~= Seq::<(Seq<u8>, Seq<u8>)>::empty());
        assert(rest.take(0) =~= Seq::<Seq<(Seq<u8>, Seq<u8>)>>::empty());
    } else {
        lemma_concat_drop_empty_at(bs, j - 1);
        assert(bs.take(j + 1).drop_last() =~= bs.take(j));
        assert(rest.take(j).drop_last() =~= rest.take(j - 1));
        assert(bs.take(j + 1).last() == rest.take(j).last());
    }
}

/// A run whose first table holds no entry has the entries of the run without
/// it, each later table starting where it starts there, one index down.
proof fn lemma_drop_empty_first(ts: Seq<Arc<SsTable>>)
    requires
        ts.len() > 0,
        ts[0].entries().len() == 0,
    ensures
        all_entries(ts) == all_entries(ts.drop_first()),
        forall|j: int| 0 <= j < ts.len() ==> #[trigger] concat_start(tables_entries(ts), j + 1) == concat_start(
            tables_entries(ts.drop_first()),
            j,
        ),
{
    let tes = tables_entries(ts);
    assert(tables_entries(ts.drop_first()) =~= tes.drop_first());
    assert forall|j: int| 0 <= j < ts.len() implies #[trigger] concat_start(tables_entries(ts), j + 1) == concat_start(
        tables_entries(ts.drop_first()),
        j,
    ) by {
        lemma_concat_drop_empty_at(tes, j);
    }
    lemma_concat_drop_empty_at(tes, ts.len() - 1);
    lemma_concat_all(tes);
    lemma_concat_all(tes.drop_first());
    assert(tes.take(ts.len() as int) =~= tes);
    assert(tes.drop_first().take(ts.len() - 1) =~= tes.drop_first());
}

/// The seek of `lemma_concat_seek_found`, on a sorted run after an empty first
/// table, when the search stops past that table.
proof fn lemma_seek_found_after_empty(ts: Seq<Arc<SsTable>>, key: Seq<u8>, left: int, p: int)
    requires
        tables_wf(ts),
        sorted_run_after_empty(ts),
        0 < left < ts.len(),
        key_lt(ts[left - 1].last_key@, key),
        !key_lt(ts[left].last_key@, key),
        0 <= p <= ts[left].entries().len(),
        entries_strictly_sorted(ts[left].entries()) ==> seek_boundary(ts[left].entries(), key, p),
    ensures
        p < ts[left].entries().len(),
        seek_boundary(all_entries(ts), key, concat_start(tables_entries(ts), left) + p),
{
    let rest = ts.drop_first();
    lemma_drop_empty_first(ts);
    assert(rest[left - 1] == ts[left]);
    assert(left - 1 > 0 ==> rest[left - 2] == ts[left - 1]);
    assert(tables_wf(rest)) by {
        assert forall|i: int| 0 <= i < rest.len() implies (#[trigger] rest[i]).wf() by {
            assert(rest[i] == ts[i + 1]);
        }
    }
    lemma_concat_seek_found(rest, key, left - 1, p);
    assert(concat_start(tables_entries(ts), (left - 1) + 1) == concat_start(tables_entries(rest), left - 1));
}

/// A table's entries are the entries `concat_start(.., j)` on of all tables.
proof fn lemma_table_in_run(ts: Seq<Arc<SsTable>>, j: int, i: int)
    requires
        0 <= j < ts.len(),
        0 <= i < ts[j].entries().len(),
    ensures
        concat_start(tables_entries(ts), j) + i < all_entries(ts).len(),
        all_entries(ts)[concat_start(tables_entries(ts), j) + i] == ts[j].entries()[i],
{
    lemma_concat_index(tables_entries(ts), j, i);
}

proof fn lemma_table_sorted_in_run(ts: Seq<Arc<SsTable>>, j: int)
    requires
        0 <= j < ts.len(),
        entries_strictly_sorted(all_entries(ts)),
    ensures
        entries_strictly_sorted(ts[j].entries()),
{
    let es = ts[j].entries();
    assert forall|a: int, b: int| 0 <= a < b < es.len() implies key_lt(#[trigger] es[a].0, #[trigger] es[b].0) by {
        lemma_table_in_run(ts, j, a);
        lemma_table_in_run(ts, j, b);
    }
}

/// Every table's last key is below `key`: no entry reaches it.
proof fn lemma_concat_seek_past_end(ts: Seq<Arc<SsTable>>, key: Seq<u8>)
    requires
        ts.len() > 0,
        tables_wf(ts),
        sorted_run(ts),
        key_lt(ts[ts.len() - 1].last_key@, key),
    ensures
        seek_boundary(all_entries(ts), key, all_entries(ts).len() as int),
{
    let tes = tables_entries(ts);
    let j = ts.len() - 1;
    let t = ts[j];
    assert(t.wf());
    lemma_table_keys(table_of(t));
    lemma_concat_all(tes);
    lemma_concat_step(tes, j);
    lemma_table_in_run(ts, j, t.entries().len() - 1);
    assert(tes.take(j + 1) =~= tes);
}

/// Under a sorted run, the seek in the first table whose last key reaches `key`
/// finds the first entry `>= key` of all tables.
proof fn lemma_concat_seek_found(ts: Seq<Arc<SsTable>>, key: Seq<u8>, left: int, p: int)
    requires
        tables_wf(ts),
        sorted_run(ts),
        0 <= left < ts.len(),
        left > 0 ==> key_lt(ts[left - 1].last_key@, key),
        !key_lt(ts[left].last_key@, key),
        0 <= p <= ts[left].entries().len(),
        entries_strictly_sorted(ts[left].entries()) ==> seek_boundary(ts[left].entries(), key, p),
    ensures
        p < ts[left].entries().len(),
        seek_boundary(all_entries(ts), key, concat_start(tables_entries(ts), left) + p),
{
    let tes = tables_entries(ts);
    let es = ts[left].entries();
    let all = all_entries(ts);
    lemma_table_sorted_in_run(ts, left);
    assert(ts[left].wf());
    lemma_table_keys(table_of(ts[left]));
    if p == es.len() {
        // The table's last entry is below `key`, yet its last key is not.
        lemma_key_le_total(key, es[es.len() - 1].0);
        assert(false);
    }
    let g = concat_start(tes, left) + p;
    lemma_table_in_run(ts, left, p);
    if g > 0 {
        if p > 0 {
            lemma_table_in_run(ts, left, p - 1);
        } else {
            assert(left > 0) by {
                if left == 0 {
                    assert(tes.take(0) =~= Seq::<Seq<(Seq<u8>, Seq<u8>)>>::empty());
                }
            }
            let prev = ts[left - 1];
            assert(prev.wf());
            assert(prev.entries().len() > 0);
            lemma_table_keys(table_of(prev));
            lemma_concat_step(tes, left - 1);
            lemma_table_in_run(ts, left - 1, prev.entries().len() - 1);
            lemma_key_le_total(key, prev.entries().last().0);
        }
    }
}

impl StorageIterator for SstConcatIterator {
    closed spec fn inv(&self) -> bool {
        &&& tables_wf(self.sstables@)
        &&& self.current matches Some(it) ==> {
            &&& 1 <= self.next_sst_idx <= self.sstables@.len()
            &&& it.inv()
            &&& it.table_spec() == *self.sstables@[self.next_sst_idx - 1]
            &&& it.remaining().len() > 0
        }
    }

    closed spec fn remaining(&self) -> Seq<(Seq<u8>, Seq<u8>)> {
        all_entries(self.sstables@).skip(self.position())
    }

    fn key(&self) -> (k: &[u8]) {
        proof {
            self.lemma_remaining_head();
        }
        match &self.current {
            Some(it) => it.key(),
            None => {
                proof {
                    assert(false);
                }
                self.sstables[0].first_key()
            },
        }
    }

    fn value(&self) -> (v: &[u8]) {
        proof {
            self.lemma_remaining_head();
        }
        match &self.current {
            Some(it) => it.value(),
            None => {
                proof {
                    assert(false);
                }
                self.sstables[0].first_key()
            },
        }
    }

    fn is_valid(&self) -> (r: bool) {
        proof {
            self.lemma_remaining_head();
        }
        self.current.is_some()
    }

    fn next(&mut self) {
        proof {
            self.lemma_remaining_head();
        }
        let ghost p = self.position();
        let ghost tes = tables_entries(self.sstables@);
        let mut cur = None;
        std::mem::swap(&mut cur, &mut self.current);
        if let Some(mut iter) = cur {
            let ghost old_it = iter;
            proof {
                iter.lemma_remaining();
            }
            iter.next();
            proof {
                iter.lemma_remaining();
            }
            if iter.is_valid() {
                self.current = Some(iter);
                proof {
                    assert(self.position() == p + 1);
                    lemma_skip_step(all_entries(self.sstables@), p);
                }
                return;
            }
            proof {
                let j = self.next_sst_idx - 1;
                let t = tes[j as int];
                assert(t == iter.table_spec().entries());
                assert(old_it.position() + 1 == t.len());
                lemma_concat_step(tes, j as int);
            }
        }
        self.seek_to_next_sst();
        proof {
            lemma_concat_all(tes);
            assert(self.position() == p + 1);
            lemma_skip_step(all_entries(self.sstables@), p);
        }
    }
}

impl SstConcatIterator {
    proof fn lemma_remaining_head(&self)
        requires
            self.inv(),
        ensures
            0 <= self.position() <= all_entries(self.sstables@).len(),
            self.remaining().len() > 0 <==> self.current is Some,
            self.current matches Some(it) ==> self.remaining()[0] == it.remaining()[0],
    {
        let tes = tables_entries(self.sstables@);
        lemma_concat_all(tes);
        if let Some(it) = self.current {
            let j = self.next_sst_idx - 1;
            it.lemma_remaining();
            assert(tes[j as int] == it.table_spec().entries());
            lemma_concat_index(tes, j as int, it.position());
            lemma_concat_prefix(tes, j as int, tes.len() as int);
        }
    }
}

proof fn lemma_skip_step(es: Seq<(Seq<u8>, Seq<u8>)>, p: int)
    requires
        0 <= p < es.len(),
    ensures
        es.skip(p).drop_first() == es.skip(p + 1),
{
    assert(es.skip(p).drop_first() =~= es.skip(p + 1));
}

} // verus!
