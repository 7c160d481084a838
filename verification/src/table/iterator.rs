use std::sync::Arc;

use super::{concat_entries, concat_start, find_block_spec, lemma_concat_all, lemma_concat_index, lemma_concat_prefix, lemma_concat_step, meta_split, SsTable};
use crate::block::{Block, BlockIterator};
use crate::iterators::StorageIterator;
use crate::key::{entries_strictly_sorted, key_le, key_lt, lemma_key_le_antisym, lemma_key_le_total, lemma_key_le_trans};
use crate::block::iterator::{block_search, seek_boundary};
use vstd::prelude::*;

verus! {

/// Where a seek to `key` in a table lands, as a position in its entries: the
/// metadata search picks a block and the block's binary search an entry in it;
/// when that search runs past the block, the seek lands on the next block's first
/// entry, or past the end after the last block.
pub open spec fn seek_position(t: SsTable, key: Seq<u8>) -> int {
    let bs = t.blocks();
    let b = find_block_spec(t.block_meta@, key);
    if b >= bs.len() {
        t.entries().len() as int
    } else {
        let q = block_search(bs[b], key, 0, bs[b].len() as int);
        if q < bs[b].len() {
            concat_start(bs, b) + q
        } else if b + 1 < bs.len() {
            concat_start(bs, b + 1)
        } else {
            t.entries().len() as int
        }
    }
}

/// An iterator over the contents of an SSTable.
pub struct SsTableIterator {
    table: Arc<SsTable>,
    blk_iter: BlockIterator,
    blk_idx: usize,
    /// How many data blocks the last creation or seek read.
    blocks_read: Ghost<nat>,
}

impl SsTableIterator {
    /// The table iterated on.
    pub closed spec fn table_spec(&self) -> SsTable {
        *self.table
    }

    /// How many data blocks the last creation or seek read.
    pub closed spec fn blocks_read(&self) -> nat {
        self.blocks_read@
    }

    /// The position in the table's entries of the current entry (their number
    /// when the iterator is past the end).
    pub closed spec fn position(&self) -> int {
        if self.blk_iter.valid_spec() {
            concat_start(self.table.blocks(), self.blk_idx as int) + self.blk_iter.index()
        } else {
            self.table.entries().len() as int
        }
    }

    /// Moves to the next block after the current block runs out.
    proof fn lemma_next_position(t: SsTable, b: int, i: int)
        requires
            t.wf(),
            0 <= b < t.block_meta@.len(),
            0 <= i < t.blocks()[b].len(),
        ensures
            concat_start(t.blocks(), b) + i < t.entries().len(),
            t.entries()[concat_start(t.blocks(), b) + i] == t.blocks()[b][i],
            i + 1 == t.blocks()[b].len() && b + 1 < t.block_meta@.len() ==> concat_start(t.blocks(), b + 1) == concat_start(t.blocks(), b) + i + 1,
            i + 1 == t.blocks()[b].len() && b + 1 == t.block_meta@.len() ==> t.entries().len() == concat_start(t.blocks(), b) + i + 1,
    {
        let bs = t.blocks();
        lemma_concat_index(bs, b, i);
        lemma_concat_step(bs, b);
        lemma_concat_all(bs);
    }

    fn new_at_first_block(table: Arc<SsTable>) -> (it: Self)
        requires
            table.wf(),
        ensures
            it.inv(),
            it.table_spec() == *table,
            it.position() == 0,
            it.blocks_read() == 1,
    {
        let block = table.read_block(0);
        let blk_iter = BlockIterator::create_and_seek_to_first(block);
        let it = Self { table, blk_iter, blk_idx: 0, blocks_read: Ghost(1) };
        proof {
            let t = it.table_spec();
            let bs = t.blocks();
            assert(t.block_ok(0));
            assert(bs.take(0) =~= Seq::<Seq<(Seq<u8>, Seq<u8>)>>::empty());
            assert(concat_start(bs, 0) == 0);
            if bs[0].len() > 0 {
                assert(bs[0][0].0.len() > 0);
                Self::lemma_next_position(t, 0, 0);
            } else {
                assert(t.block_meta@.len() == 1);
                lemma_concat_step(bs, 0);
                lemma_concat_all(bs);
                assert(bs.take(1) =~= bs);
            }
            assert(it.table_suffix_ok());
        }
        it
    }

    /// The iterator's current entry is the table's entry at its position.
    closed spec fn table_suffix_ok(&self) -> bool {
        let t = *self.table;
        let bs = t.blocks();
        &&& self.blk_iter.valid_spec() ==> {
            &&& self.blk_idx < t.block_meta@.len()
            &&& self.blk_iter.entries() == bs[self.blk_idx as int]
            &&& self.blk_iter.index() < bs[self.blk_idx as int].len()
            &&& concat_start(bs, self.blk_idx as int) + self.blk_iter.index() < t.entries().len()
            &&& self.blk_iter.cur_key() == bs[self.blk_idx as int][self.blk_iter.index()].0
            &&& self.blk_iter.cur_value() == bs[self.blk_idx as int][self.blk_iter.index()].1
        }
        &&& self.blk_iter.valid_spec() ==> self.blk_idx < t.block_meta@.len()
    }

    /// Creates a new iterator and seeks to the first key-value pair in the first data block.
    pub fn create_and_seek_to_first(table: Arc<SsTable>) -> (it: Self)
        requires
            table.wf(),
        ensures
            it.inv(),
            it.table_spec() == *table,
            it.remaining() == table.entries(),
            it.blocks_read() == 1,
    {
        let it = Self::new_at_first_block(table);
        assert(it.remaining() =~= it.table_spec().entries());
        it
    }

    /// Seeks to the first key-value pair in the first data block.
    pub fn seek_to_first(&mut self)
        requires
            old(self).inv(),
        ensures
            final(self).inv(),
            final(self).table_spec() == old(self).table_spec(),
            final(self).remaining() == final(self).table_spec().entries(),
            final(self).blocks_read() == 1,
    {
        let fresh = Self::new_at_first_block(self.table.clone());
        *self = fresh;
        assert(self.remaining() =~= self.table_spec().entries());
    }
}

impl StorageIterator for SsTableIterator {
    closed spec fn inv(&self) -> bool {
        &&& self.table.wf()
        &&& self.blk_iter.inv()
        &&& self.table_suffix_ok()
    }

    closed spec fn remaining(&self) -> Seq<(Seq<u8>, Seq<u8>)> {
        self.table.entries().skip(self.position())
    }

    /// Returns the key held by the underlying block iterator.
    fn key(&self) -> (k: &[u8]) {
        proof {
            self.lemma_remaining_head();
        }
        self.blk_iter.key()
    }

    /// Returns the value held by the underlying block iterator.
    fn value(&self) -> (v: &[u8]) {
        proof {
            self.lemma_remaining_head();
        }
        self.blk_iter.value()
    }

    /// Returns whether the current block iterator is valid.
    fn is_valid(&self) -> (r: bool) {
        proof {
            self.lemma_remaining_head();
        }
        self.blk_idx < self.table.num_of_blocks() && self.blk_iter.is_valid()
    }

    /// Moves to the next key, loading the next block when this one runs out.
    fn next(&mut self)
        ensures
            final(self).table_spec() == old(self).table_spec(),
    {
        proof {
            self.lemma_remaining_head();
            self.blk_iter.lemma_index();
            Self::lemma_next_position(self.table_spec(), self.blk_idx as int, self.blk_iter.index());
        }
        let ghost old_self = *self;
        let ghost p = self.position();
        let n = self.table.num_of_blocks();
        assert(self.blk_idx < n);
        proof {
            let t = self.table_spec();
            assert(t.block_ok(self.blk_idx as int));
            assert(t.blocks()[self.blk_idx as int] == t.block_entries_at(self.blk_idx as int));
        }
        self.blk_iter.next();
        if !self.blk_iter.is_valid() {
            proof {
                let es = old_self.blk_iter.entries();
                let i = old_self.blk_iter.index();
                if i + 1 < es.len() {
                    assert(es[i + 1].0.len() > 0);
                }
                assert(i + 1 == es.len());
            }
            let next_blk_idx = self.blk_idx + 1;
            if next_blk_idx >= self.table.num_of_blocks() {
                proof {
                    assert(self.position() == p + 1);
                    lemma_skip_step(self.table_spec().entries(), p);
                }
                return;
            }
            self.blk_idx = next_blk_idx;
            let new_block: Arc<Block> = self.table.read_block(next_blk_idx);
            self.blk_iter = BlockIterator::create_and_seek_to_first(new_block);
            proof {
                let t = self.table_spec();
                assert(t.block_ok(next_blk_idx as int));
                assert(t.blocks()[next_blk_idx as int][0].0.len() > 0);
                Self::lemma_next_position(t, next_blk_idx as int, 0);
                assert(self.position() == p + 1);
                lemma_skip_step(t.entries(), p);
            }
            return;
        }
        proof {
            let t = self.table_spec();
            self.blk_iter.lemma_index();
            Self::lemma_next_position(t, self.blk_idx as int, self.blk_iter.index());
            assert(self.position() == p + 1);
            lemma_skip_step(t.entries(), p);
        }
    }
}

impl SsTableIterator {
    /// What the iterator yields is the table's entries from its position on.
    pub proof fn lemma_remaining(&self)
        requires
            self.inv(),
        ensures
            0 <= self.position() <= self.table_spec().entries().len(),
            self.remaining() == self.table_spec().entries().skip(self.position()),
    {
        self.lemma_remaining_head();
        self.blk_iter.lemma_index();
    }

    #[verifier::rlimit(30)]
    fn seek_to_key_inner(table: Arc<SsTable>, key: &[u8]) -> (it: Self)
        requires
            table.wf(),
        ensures
            it.inv(),
            it.table_spec() == *table,
            0 <= it.position() <= table.entries().len(),
            entries_strictly_sorted(table.entries()) ==> seek_boundary(table.entries(), key@, it.position()),
            it.position() == seek_position(*table, key@),
            it.blocks_read() <= 2,
    {
        let blk_idx = table.find_block_idx(key);
        let ghost pp = if blk_idx == 0 && (table.block_meta@.len() == 0 || !key_le(table.block_meta@[0].first_key@, key@)) {
            0
        } else {
            blk_idx + 1
        };
        if blk_idx >= table.num_of_blocks() {
            let it = Self {
                table,
                blk_idx,
                blk_iter: BlockIterator::create_and_seek_to_first(Arc::new(Block { data: Vec::new(), offsets: Vec::new() })),
                blocks_read: Ghost(0),
            };
            return it;
        }
        let block = table.read_block(blk_idx);
        let blk_iter = BlockIterator::create_and_seek_to_key(block, key);
        let mut iter = Self { table: table.clone(), blk_idx, blk_iter, blocks_read: Ghost(1) };
        let ghost t = iter.table_spec();
        let ghost bs = t.blocks();
        let ghost es = bs[blk_idx as int];
        let ghost q = block_search(es, key@, 0, es.len() as int);
        proof {
            assert(t.block_ok(blk_idx as int));
            iter.blk_iter.lemma_index();
            assert(iter.blk_iter.entries() == es);
            assert(blk_idx as int == find_block_spec(t.block_meta@, key@));
        }
        if !iter.blk_iter.is_valid() {
            proof {
                let at = iter.blk_iter.index();
                if at < es.len() {
                    assert(es[at].0.len() > 0);
                }
                assert(seek_boundary(es, key@, es.len() as int));
                assert(es == t.block_entries_at(blk_idx as int));
                if q < es.len() {
                    assert(es[q].0.len() > 0);
                }
                assert(q >= es.len());
            }
            iter.blk_idx = iter.blk_idx + 1;
            if iter.blk_idx < iter.table.num_of_blocks() {
                let next_block = iter.table.read_block(iter.blk_idx);
                iter.blk_iter = BlockIterator::create_and_seek_to_first(next_block);
                iter.blocks_read = Ghost(2);
                proof {
                    assert(t.block_ok(iter.blk_idx as int));
                    assert(bs[iter.blk_idx as int][0].0.len() > 0);
                    Self::lemma_next_position(t, iter.blk_idx as int, 0);
                    assert(iter.position() == seek_position(t, key@));
                    if entries_strictly_sorted(t.entries()) {
                        lemma_seek_position(t, key@, blk_idx as int, pp, false, 0);
                    }
                }
            } else {
                proof {
                    lemma_concat_all(bs);
                    assert(iter.position() == seek_position(t, key@));
                    if entries_strictly_sorted(t.entries()) {
                        lemma_seek_position(t, key@, blk_idx as int, pp, false, 0);
                    }
                }
            }
            return iter;
        }
        proof {
            Self::lemma_next_position(t, blk_idx as int, iter.blk_iter.index());
            assert(q < es.len());
            assert(iter.blk_iter.index() == q);
            assert(iter.position() == seek_position(t, key@));
            if entries_strictly_sorted(t.entries()) {
                lemma_seek_position(t, key@, blk_idx as int, pp, true, iter.blk_iter.index());
            }
        }
        iter
    }

    /// Creates a new iterator and seeks to the first key-value pair which is `>= key`.
    pub fn create_and_seek_to_key(table: Arc<SsTable>, key: &[u8]) -> (it: Self)
        requires
            table.wf(),
        ensures
            it.inv(),
            it.table_spec() == *table,
            0 <= it.position() <= table.entries().len(),
            it.remaining() == table.entries().skip(it.position()),
            entries_strictly_sorted(table.entries()) ==> seek_boundary(table.entries(), key@, it.position()),
            it.position() == seek_position(*table, key@),
            it.blocks_read() <= 2,
    {
        let it = Self::seek_to_key_inner(table, key);
        proof {
            it.lemma_remaining();
        }
        it
    }

    /// Seeks to the first key-value pair which is `>= key`.
    pub fn seek_to_key(&mut self, key: &[u8])
        requires
            old(self).inv(),
        ensures
            final(self).inv(),
            final(self).table_spec() == old(self).table_spec(),
            0 <= final(self).position() <= final(self).table_spec().entries().len(),
            final(self).remaining() == final(self).table_spec().entries().skip(final(self).position()),
            entries_strictly_sorted(final(self).table_spec().entries()) ==> seek_boundary(
                final(self).table_spec().entries(),
                key@,
                final(self).position(),
            ),
            final(self).position() == seek_position(final(self).table_spec(), key@),
            final(self).blocks_read() <= 2,
    {
        let iter = Self::seek_to_key_inner(self.table.clone(), key);
        self.blk_idx = iter.blk_idx;
        self.blk_iter = iter.blk_iter;
        self.blocks_read = iter.blocks_read;
        proof {
            self.lemma_remaining();
        }
    }
}

/// Seeking an iterator to `key` and creating one at `key` agree on any table:
/// `seek_to_key` and `create_and_seek_to_key` each leave the iterator at
/// `seek_position(table, key)`, so both yield the same entries from there on.
pub proof fn lemma_seek_agrees(a: SsTableIterator, b: SsTableIterator, key: Seq<u8>)
    requires
        a.inv(),
        b.inv(),
        a.table_spec() == b.table_spec(),
        a.position() == seek_position(a.table_spec(), key),
        b.position() == seek_position(b.table_spec(), key),
    ensures
        a.position() == b.position(),
        a.remaining() == b.remaining(),
{
    a.lemma_remaining();
    b.lemma_remaining();
}

/// Where a seek in a table lands, given the block chosen from the metadata (`r`,
/// from the split point `p` of the block first keys) and the seek in that block.
proof fn lemma_seek_position(t: SsTable, key: Seq<u8>, r: int, p: int, found: bool, q: int)
    requires
        t.wf(),
        entries_strictly_sorted(t.entries()),
        meta_split(t.block_meta@, key, p),
        r == if p == 0 { 0 } else { p - 1 },
        0 <= r < t.block_meta@.len(),
        found ==> 0 <= q < t.blocks()[r].len() && seek_boundary(t.blocks()[r], key, q),
        !found ==> seek_boundary(t.blocks()[r], key, t.blocks()[r].len() as int),
    ensures
        found ==> seek_boundary(t.entries(), key, concat_start(t.blocks(), r) + q),
        !found && r + 1 < t.block_meta@.len() ==> seek_boundary(t.entries(), key, concat_start(t.blocks(), r + 1)),
        !found && r + 1 >= t.block_meta@.len() ==> seek_boundary(t.entries(), key, t.entries().len() as int),
{
    let bs = t.blocks();
    let n = t.block_meta@.len();
    assert(t.block_ok(r));
    let first_r = if bs[r].len() > 0 { bs[r][0].0 } else { Seq::empty() };
    assert(bs[r].len() > 0 ==> first_r == t.block_meta@[r].first_key@);
    if found {
        lemma_seek_found(bs, t.entries(), key, r, q, p > 0 && q == 0);
    } else {
        if r + 1 < n {
            assert(t.block_ok(r + 1));
            assert(bs[r + 1][0].0 == t.block_meta@[r + 1].first_key@);
            if p == 0 {
                assert(bs[0].len() > 0);
                assert(bs[0][0].0 == t.block_meta@[0].first_key@);
                lemma_concat_index(bs, 0, 0);
                lemma_concat_index(bs, 1, 0);
                assert(bs.take(0) =~= Seq::<Seq<(Seq<u8>, Seq<u8>)>>::empty());
                lemma_concat_step(bs, 0);
                let a = bs[0][0].0;
                let b = bs[1][0].0;
                assert(key_lt(a, b));
                lemma_key_le_total(a, b);
                if key_le(b, key) {
                    lemma_key_le_trans(a, b, key);
                }
            }
            assert(!key_le(bs[r + 1][0].0, key));
            assert(bs[r].len() > 0);
        }
        lemma_seek_not_found(bs, t.entries(), key, r, n == 1);
    }
}

proof fn lemma_seek_found(
    bs: Seq<Seq<(Seq<u8>, Seq<u8>)>>,
    es: Seq<(Seq<u8>, Seq<u8>)>,
    key: Seq<u8>,
    r: int,
    q: int,
    starts_at_or_below: bool,
)
    requires
        es == concat_entries(bs),
        entries_strictly_sorted(es),
        0 <= r < bs.len(),
        0 <= q < bs[r].len(),
        seek_boundary(bs[r], key, q),
        q == 0 && r > 0 ==> starts_at_or_below,
        starts_at_or_below ==> key_le(bs[r][0].0, key),
    ensures
        seek_boundary(es, key, concat_start(bs, r) + q),
{
    let g = concat_start(bs, r) + q;
    lemma_concat_index(bs, r, q);
    if g > 0 {
        if q > 0 {
            lemma_concat_index(bs, r, q - 1);
        } else {
            lemma_key_le_antisym(key, bs[r][0].0);
            assert(key_lt(es[g - 1].0, es[g].0));
        }
    }
}

proof fn lemma_seek_not_found(
    bs: Seq<Seq<(Seq<u8>, Seq<u8>)>>,
    es: Seq<(Seq<u8>, Seq<u8>)>,
    key: Seq<u8>,
    r: int,
    single: bool,
)
    requires
        es == concat_entries(bs),
        0 <= r < bs.len(),
        seek_boundary(bs[r], key, bs[r].len() as int),
        bs[r].len() == 0 ==> single && bs.len() == 1,
        r + 1 < bs.len() ==> bs[r + 1].len() > 0 && !key_le(bs[r + 1][0].0, key),
    ensures
        r + 1 < bs.len() ==> seek_boundary(es, key, concat_start(bs, r + 1)),
        r + 1 >= bs.len() ==> seek_boundary(es, key, es.len() as int),
{
    let len = bs[r].len() as int;
    lemma_concat_step(bs, r);
    lemma_concat_prefix(bs, r + 1, bs.len() as int);
    lemma_concat_all(bs);
    if len > 0 {
        lemma_concat_index(bs, r, len - 1);
    } else {
        assert(bs.take(0) =~= Seq::<Seq<(Seq<u8>, Seq<u8>)>>::empty());
        assert(bs.take(1) =~= bs);
    }
    if r + 1 < bs.len() {
        lemma_concat_index(bs, r + 1, 0);
        lemma_key_le_total(key, bs[r + 1][0].0);
    }
}

proof fn lemma_skip_step(es: Seq<(Seq<u8>, Seq<u8>)>, p: int)
    requires
        0 <= p < es.len(),
    ensures
        es.skip(p).drop_first() == es.skip(p + 1),
        es.skip(p).len() > 0,
{
    assert(es.skip(p).drop_first() =~= es.skip(p + 1));
}

impl SsTableIterator {
    proof fn lemma_remaining_head(&self)
        requires
            self.inv(),
        ensures
            self.remaining().len() > 0 <==> (self.blk_idx < self.table.block_meta@.len() && self.blk_iter.valid_spec()),
            self.remaining().len() > 0 ==> self.remaining()[0] == (self.blk_iter.cur_key(), self.blk_iter.cur_value()),
    {
        let t = *self.table;
        self.blk_iter.lemma_index();
        if self.blk_iter.valid_spec() {
            Self::lemma_next_position(t, self.blk_idx as int, self.blk_iter.index());
        }
    }
}

} // verus!
