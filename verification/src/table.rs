//! Sorted string tables: a sequence of encoded blocks, the blocks' metadata,
//! and the offset of the metadata.
//!
//! File layout: `block 0 | block 1 | ... | metadata | metadata offset (u32)`, where
//! each block is encoded as `Block::encode` does, and the metadata holds, for each
//! block, `offset (u32) | first key length (u16) | first key | last key length (u16) | last key`,
//! all integers big-endian.

mod builder;
mod iterator;

pub use builder::{built_from, fresh_sizes, lemma_add_model, model_of, model_step, size_step, BuildModel, SsTableBuilder};
pub use iterator::{lemma_seek_agrees, seek_position, SsTableIterator};

use std::sync::Arc;

use crate::block::{block_entries, block_wf, decodable, decoded_data, decoded_offsets, Block, BlockIterator};
use crate::compact::{all_fit, entry_fits};
use crate::codec::{be16, be32, put_slice, put_u16, put_u32};
use crate::key::{key_eq_exec, key_le, key_le_exec};
use vstd::prelude::*;
use vstd::slice::slice_subrange;

verus! {

/// The metadata of a data block: where it starts and its first and last keys.
pub struct BlockMeta {
    /// Offset of this data block.
    pub offset: usize,
    /// The first key of the data block.
    pub first_key: Vec<u8>,
    /// The last key of the data block.
    pub last_key: Vec<u8>,
}

/// The encoding of one block's metadata.
pub open spec fn meta_bytes(m: BlockMeta) -> Seq<u8> {
    be32(m.offset as u32) + be16(m.first_key@.len() as u16) + m.first_key@ + be16(m.last_key@.len() as u16) + m.last_key@
}

/// The encoding of a sequence of block metadata.
pub open spec fn metas_bytes(ms: Seq<BlockMeta>) -> Seq<u8>
    decreases ms.len(),
{
    if ms.len() == 0 {
        Seq::empty()
    } else {
        metas_bytes(ms.drop_last()) + meta_bytes(ms.last())
    }
}

impl BlockMeta {
    /// Encodes the block metadata and appends it to `buf`.
    pub fn encode_block_meta(block_meta: &[BlockMeta], buf: &mut Vec<u8>)
        ensures
            final(buf)@ == old(buf)@ + metas_bytes(block_meta@),
    {
        let mut i: usize = 0;
        while i < block_meta.len()
            invariant
                i <= block_meta@.len(),
                buf@ == old(buf)@ + metas_bytes(block_meta@.take(i as int)),
            decreases block_meta@.len() - i,
        {
            let m = &block_meta[i];
            proof {
                assert(block_meta@.take(i + 1).drop_last() =~= block_meta@.take(i as int));
            }
            put_u32(buf, m.offset as u32);
            put_u16(buf, m.first_key.len() as u16);
            put_slice(buf, m.first_key.as_slice());
            put_u16(buf, m.last_key.len() as u16);
            put_slice(buf, m.last_key.as_slice());
            i = i + 1;
            proof {
                assert(buf@ =~= old(buf)@ + metas_bytes(block_meta@.take(i as int)));
            }
        }
        proof {
            assert(block_meta@.take(block_meta@.len() as int) =~= block_meta@);
        }
    }
}

/// The entries of a sequence of blocks, one block after the other.
pub open spec fn concat_entries(bs: Seq<Seq<(Seq<u8>, Seq<u8>)>>) -> Seq<(Seq<u8>, Seq<u8>)>
    decreases bs.len(),
{
    if bs.len() == 0 {
        Seq::empty()
    } else {
        concat_entries(bs.drop_last()) + bs.last()
    }
}

/// Every entry of the concatenation is an entry of one of the parts: a property
/// that holds of all their entries holds of all entries of the concatenation.
pub proof fn lemma_concat_keeps(bs: Seq<Seq<(Seq<u8>, Seq<u8>)>>, p: spec_fn((Seq<u8>, Seq<u8>)) -> bool)
    requires
        forall|i: int, j: int| 0 <= i < bs.len() && 0 <= j < bs[i].len() ==> p(#[trigger] bs[i][j]),
    ensures
        forall|k: int| 0 <= k < concat_entries(bs).len() ==> p(#[trigger] concat_entries(bs)[k]),
    decreases bs.len(),
{
    if bs.len() > 0 {
        let init = bs.drop_last();
        assert forall|i: int, j: int| 0 <= i < init.len() && 0 <= j < init[i].len() implies p(#[trigger] init[i][j]) by {
            assert(init[i] == bs[i]);
        }
        lemma_concat_keeps(init, p);
        let out = concat_entries(bs);
        let pre = concat_entries(init);
        assert forall|k: int| 0 <= k < out.len() implies p(#[trigger] out[k]) by {
            if k < pre.len() {
                assert(out[k] == pre[k]);
            } else {
                assert(out[k] == bs.last()[k - pre.len()]);
                assert(bs.last() == bs[bs.len() - 1]);
            }
        }
    }
}

/// Where the entries of part `i` start in `concat_entries(bs)`.
pub open spec fn concat_start(bs: Seq<Seq<(Seq<u8>, Seq<u8>)>>, i: int) -> int {
    concat_entries(bs.take(i)).len() as int
}

/// The entries of the first `i + 1` parts are those of the first `i` then part `i`.
pub proof fn lemma_concat_step(bs: Seq<Seq<(Seq<u8>, Seq<u8>)>>, i: int)
    requires
        0 <= i < bs.len(),
    ensures
        concat_entries(bs.take(i + 1)) == concat_entries(bs.take(i)) + bs[i],
        concat_start(bs, i + 1) == concat_start(bs, i) + bs[i].len(),
{
    assert(bs.take(i + 1).drop_last() =~= bs.take(i));
}

/// Concatenating all parts takes every part whole.
pub proof fn lemma_concat_all(bs: Seq<Seq<(Seq<u8>, Seq<u8>)>>)
    ensures
        bs.take(bs.len() as int) == bs,
        concat_start(bs, bs.len() as int) == concat_entries(bs).len(),
{
    assert(bs.take(bs.len() as int) =~= bs);
}

/// The entries of the first `i` parts are a prefix of all entries.
pub proof fn lemma_concat_prefix(bs: Seq<Seq<(Seq<u8>, Seq<u8>)>>, i: int, j: int)
    requires
        0 <= i <= j <= bs.len(),
    ensures
        concat_entries(bs.take(i)) == concat_entries(bs.take(j)).take(concat_start(bs, i)),
        concat_start(bs, i) <= concat_start(bs, j),
    decreases j - i,
{
    if i < j {
        lemma_concat_prefix(bs, i, j - 1);
        lemma_concat_step(bs, j - 1);
        assert(concat_entries(bs.take(i)) =~= concat_entries(bs.take(j)).take(concat_start(bs, i)));
    } else {
        assert(concat_entries(bs.take(i)) =~= concat_entries(bs.take(j)).take(concat_start(bs, i)));
    }
}

/// Entry `k` of part `i` is entry `concat_start(bs, i) + k` of all entries.
pub proof fn lemma_concat_index(bs: Seq<Seq<(Seq<u8>, Seq<u8>)>>, i: int, k: int)
    requires
        0 <= i < bs.len(),
        0 <= k < bs[i].len(),
    ensures
        concat_start(bs, i) + k < concat_entries(bs).len(),
        concat_entries(bs)[concat_start(bs, i) + k] == bs[i][k],
{
    lemma_concat_step(bs, i);
    lemma_concat_prefix(bs, i + 1, bs.len() as int);
    lemma_concat_all(bs);
    let pre = concat_entries(bs.take(i + 1));
    assert(pre[concat_start(bs, i) + k] == bs[i][k]);
}

/// An SST: the bytes of its file and what was read from them.
pub struct SsTable {
    /// The bytes of the table's file.
    pub file: Vec<u8>,
    /// The meta blocks that hold info for data blocks.
    pub block_meta: Vec<BlockMeta>,
    /// The offset that indicates the start point of meta blocks in the file.
    pub block_meta_offset: usize,
    pub id: usize,
    pub first_key: Vec<u8>,
    pub last_key: Vec<u8>,
    pub max_ts: u64,
}

impl SsTable {
    pub open spec fn id_spec(&self) -> usize {
        self.id
    }

    pub open spec fn first_key_spec(&self) -> Seq<u8> {
        self.first_key@
    }

    pub open spec fn last_key_spec(&self) -> Seq<u8> {
        self.last_key@
    }

    /// The size of the table's file in bytes.
    pub open spec fn size_spec(&self) -> nat {
        self.file@.len()
    }

    /// The number of data blocks.
    pub open spec fn num_blocks(&self) -> int {
        self.block_meta@.len() as int
    }

    /// Where data block `i` ends: at the next block, or at the metadata.
    pub open spec fn block_end(&self, i: int) -> int {
        if i + 1 < self.block_meta@.len() {
            self.block_meta@[i + 1].offset as int
        } else {
            self.block_meta_offset as int
        }
    }

    /// The encoded bytes of data block `i`.
    pub open spec fn block_bytes(&self, i: int) -> Seq<u8> {
        self.file@.subrange(self.block_meta@[i].offset as int, self.block_end(i))
    }

    /// The entries of data block `i`.
    pub open spec fn block_entries_at(&self, i: int) -> Seq<(Seq<u8>, Seq<u8>)> {
        block_entries(decoded_data(self.block_bytes(i)), decoded_offsets(self.block_bytes(i)))
    }

    /// The entries of every data block, block by block.
    pub open spec fn blocks(&self) -> Seq<Seq<(Seq<u8>, Seq<u8>)>> {
        Seq::new(self.block_meta@.len(), |i: int| self.block_entries_at(i))
    }

    /// The table's key-value entries, in order.
    pub open spec fn entries(&self) -> Seq<(Seq<u8>, Seq<u8>)> {
        concat_entries(self.blocks())
    }

    /// Data block `i` can be read, and its metadata agrees with it.
    pub open spec fn block_ok(&self, i: int) -> bool {
        let bytes = self.block_bytes(i);
        let es = self.block_entries_at(i);
        &&& self.block_meta@[i].offset <= self.block_end(i) <= self.file@.len()
        &&& decodable(bytes)
        &&& block_wf(decoded_data(bytes), decoded_offsets(bytes))
        &&& es.len() > 0 || self.block_meta@.len() == 1
        &&& forall|k: int| 0 <= k < es.len() ==> (#[trigger] es[k]).0.len() > 0
        &&& es.len() > 0 ==> self.block_meta@[i].first_key@ == es[0].0 && self.block_meta@[i].last_key@ == es.last().0
    }

    /// The table is well formed: it has a data block, every data block can be
    /// read and agrees with its metadata, and the table's first and last keys are
    /// those of its first and last blocks.
    pub open spec fn wf(&self) -> bool {
        &&& self.block_meta@.len() >= 1
        &&& forall|i: int| 0 <= i < self.block_meta@.len() ==> #[trigger] self.block_ok(i)
        &&& self.first_key@ == self.block_meta@[0].first_key@
        &&& self.last_key@ == self.block_meta@[self.block_meta@.len() - 1].last_key@
    }

    /// The id of the table.
    pub fn sst_id(&self) -> (r: usize)
        ensures
            r == self.id_spec(),
    {
        self.id
    }

    /// The smallest key in the table.
    pub fn first_key(&self) -> (r: &[u8])
        ensures
            r@ == self.first_key_spec(),
    {
        self.first_key.as_slice()
    }

    /// The largest key in the table.
    pub fn last_key(&self) -> (r: &[u8])
        ensures
            r@ == self.last_key_spec(),
    {
        self.last_key.as_slice()
    }

    /// The size of the table's file in bytes.
    pub fn table_size(&self) -> (r: u64)
        requires
            self.size_spec() <= u64::MAX,
        ensures
            r == self.size_spec(),
    {
        self.file.len() as u64
    }

    /// The bytes of the table's file.
    pub fn file_bytes(&self) -> (r: &[u8])
        ensures
            r@ == self.file@,
    {
        self.file.as_slice()
    }

    /// The number of data blocks.
    pub fn num_of_blocks(&self) -> (r: usize)
        ensures
            r == self.num_blocks(),
    {
        self.block_meta.len()
    }

    /// Reads and decodes data block `block_idx`.
    pub fn read_block(&self, block_idx: usize) -> (b: Arc<Block>)
        requires
            self.wf(),
            block_idx < self.num_blocks(),
        ensures
            b.wf(),
            b.data@ == decoded_data(self.block_bytes(block_idx as int)),
            b.offsets@ == decoded_offsets(self.block_bytes(block_idx as int)),
            b.entries() == self.block_entries_at(block_idx as int),
            b.entries() == self.blocks()[block_idx as int],
    {
        assert(self.block_ok(block_idx as int));
        let offset = self.block_meta[block_idx].offset;
        let n = self.block_meta.len();
        let offset_end = if block_idx < n - 1 {
            self.block_meta[block_idx + 1].offset
        } else {
            self.block_meta_offset
        };
        let block = Block::decode(slice_subrange(self.file.as_slice(), offset, offset_end));
        Arc::new(block)
    }

    /// Finds the block that may contain `key`: the last block whose first key is
    /// at most `key`, or the first block.
    pub fn find_block_idx(&self, key: &[u8]) -> (r: usize)
        ensures
            self.block_meta@.len() > 0 ==> r < self.block_meta@.len(),
            self.block_meta@.len() == 0 ==> r == 0,
            r == find_block_spec(self.block_meta@, key@),
            ({
                let p = if r == 0 && (self.block_meta@.len() == 0 || !key_le(self.block_meta@[0].first_key@, key@)) {
                    0
                } else {
                    r + 1
                };
                meta_split(self.block_meta@, key@, p)
            }),
    {
        let n = self.block_meta.len();
        let mut left: usize = 0;
        let mut right: usize = n;
        while left < right
            invariant
                n == self.block_meta@.len(),
                left <= right <= n,
                left > 0 ==> key_le(self.block_meta@[left - 1].first_key@, key@),
                right < n ==> !key_le(self.block_meta@[right as int].first_key@, key@),
                meta_search(self.block_meta@, key@, left as int, right as int) == meta_search(self.block_meta@, key@, 0, n as int),
            decreases right - left,
        {
            let mid = left + (right - left) / 2;
            if key_le_exec(self.block_meta[mid].first_key.as_slice(), key) {
                left = mid + 1;
            } else {
                right = mid;
            }
        }
        if left == 0 { 0 } else { left - 1 }
    }
}

impl SsTable {
    /// Every entry of data block `i` fits the block format.
    pub open spec fn block_fits(&self, i: int) -> bool {
        forall|k: int| 0 <= k < self.block_entries_at(i).len() ==> entry_fits(#[trigger] self.block_entries_at(i)[k])
    }

    /// Decides whether data block `i` can be read and agrees with its metadata,
    /// and every entry of it fits the block format.
    fn check_block(&self, i: usize) -> (r: bool)
        requires
            i < self.block_meta@.len(),
        ensures
            r == (self.block_ok(i as int) && self.block_fits(i as int)),
    {
        let n = self.block_meta.len();
        let offset = self.block_meta[i].offset;
        let end = if i + 1 < n {
            self.block_meta[i + 1].offset
        } else {
            self.block_meta_offset
        };
        if offset > end || end > self.file.len() {
            return false;
        }
        let bytes = slice_subrange(self.file.as_slice(), offset, end);
        assert(bytes@ == self.block_bytes(i as int));
        let len = bytes.len();
        if len < 2 {
            return false;
        }
        let count = ((bytes[len - 2] as u16) * 256 + (bytes[len - 1] as u16)) as usize;
        if 2 * count + 2 > len {
            return false;
        }
        let block = Block::decode(bytes);
        if !block.check_wf() {
            return false;
        }
        let ghost es = block.entries();
        assert(es == self.block_entries_at(i as int));
        let m = block.offsets.len();
        if m == 0 {
            return n == 1;
        }
        let mut it = BlockIterator::create_and_seek_to_first(Arc::new(block));
        let mut j: usize = 0;
        while j < m
            invariant
                it.inv(),
                it.entries() == es,
                es.len() == m,
                m > 0,
                es == self.block_entries_at(i as int),
                i < self.block_meta@.len(),
                j <= m,
                j < m ==> it.index() == j && it.cur_key() == es[j as int].0 && it.cur_value() == es[j as int].1,
                forall|k: int| 0 <= k < j ==> (#[trigger] es[k]).0.len() > 0 && entry_fits(es[k]),
                j > 0 ==> self.block_meta@[i as int].first_key@ == es[0].0,
                j == m ==> self.block_meta@[i as int].last_key@ == es[m - 1].0,
            decreases m - j,
        {
            let k = it.key();
            let v = it.value();
            if k.len() == 0 || k.len() > 0xffff || v.len() > 0xffff {
                return false;
            }
            if j == 0 && !key_eq_exec(k, self.block_meta[i].first_key.as_slice()) {
                return false;
            }
            if j + 1 == m && !key_eq_exec(k, self.block_meta[i].last_key.as_slice()) {
                return false;
            }
            it.next();
            j = j + 1;
        }
        true
    }

    /// Decides whether the table is well formed and every entry fits the block
    /// format (keys not empty, keys and values at most 0xffff bytes).
    pub fn check_format(&self) -> (r: bool)
        ensures
            r == (self.wf() && all_fit(self.entries())),
    {
        let n = self.block_meta.len();
        if n == 0 {
            return false;
        }
        let ghost bs = self.blocks();
        let mut i: usize = 0;
        while i < n
            invariant
                n == self.block_meta@.len(),
                bs == self.blocks(),
                i <= n,
                forall|j: int| #![trigger self.block_ok(j)] 0 <= j < i ==> self.block_ok(j) && self.block_fits(j),
            decreases n - i,
        {
            if !self.check_block(i) {
                proof {
                    if self.block_ok(i as int) {
                        let k = choose|k: int| 0 <= k < self.block_entries_at(i as int).len() && !entry_fits(#[trigger] self.block_entries_at(i as int)[k]);
                        assert(bs[i as int] == self.block_entries_at(i as int));
                        lemma_concat_index(bs, i as int, k);
                    }
                }
                return false;
            }
            assert(self.block_ok(i as int) && self.block_fits(i as int));
            let ghost done = i as int;
            i = i + 1;
            assert forall|j: int| 0 <= j < i implies #[trigger] self.block_ok(j) && self.block_fits(j) by {
                if j < done {
                    assert(self.block_ok(j));
                }
            }
        }
        proof {
            assert forall|a: int, b: int| 0 <= a < bs.len() && 0 <= b < bs[a].len() implies entry_fits(#[trigger] bs[a][b]) by {
                assert(self.block_ok(a) && self.block_fits(a));
                assert(bs[a] == self.block_entries_at(a));
            }
            lemma_concat_keeps(bs, |e: (Seq<u8>, Seq<u8>)| entry_fits(e));
        }
        key_eq_exec(self.first_key.as_slice(), self.block_meta[0].first_key.as_slice())
            && key_eq_exec(self.last_key.as_slice(), self.block_meta[n - 1].last_key.as_slice())
    }
}

/// A well-formed table's first and last keys are those of its first and last entries.
pub proof fn lemma_table_keys(t: SsTable)
    requires
        t.wf(),
        t.entries().len() > 0,
    ensures
        t.first_key@ == t.entries()[0].0,
        t.last_key@ == t.entries().last().0,
{
    let bs = t.blocks();
    let n = t.block_meta@.len() as int;
    assert(t.block_ok(0));
    assert(t.block_ok(n - 1));
    lemma_concat_all(bs);
    lemma_concat_step(bs, n - 1);
    if n == 1 {
        assert(bs.take(0) =~= Seq::<Seq<(Seq<u8>, Seq<u8>)>>::empty());
        assert(bs.take(1) =~= bs);
        assert(bs[0].len() > 0);
    }
    assert(bs[0].len() > 0);
    assert(bs[n - 1].len() > 0);
    lemma_concat_index(bs, 0, 0);
    assert(bs.take(0) =~= Seq::<Seq<(Seq<u8>, Seq<u8>)>>::empty());
    lemma_concat_index(bs, n - 1, bs[n - 1].len() - 1);
    assert(bs.take(n) =~= bs);
}

/// Where the binary search of the block metadata for `key` stops: it halves the
/// range, keeping the upper half when the middle block's first key is at most
/// `key`.
pub open spec fn meta_search(metas: Seq<BlockMeta>, key: Seq<u8>, left: int, right: int) -> int
    decreases right - left,
{
    if left < right {
        let mid = left + (right - left) / 2;
        if key_le(metas[mid].first_key@, key) {
            meta_search(metas, key, mid + 1, right)
        } else {
            meta_search(metas, key, left, mid)
        }
    } else {
        left
    }
}

/// The block a search of the metadata for `key` picks: the one before where the
/// search stops, or the first block.
pub open spec fn find_block_spec(metas: Seq<BlockMeta>, key: Seq<u8>) -> int {
    let l = meta_search(metas, key, 0, metas.len() as int);
    if l == 0 {
        0
    } else {
        l - 1
    }
}

/// `p` splits the block metadata at `key`: the block before `p` starts at or
/// below `key`, the block at `p` (if any) above it.
pub open spec fn meta_split(metas: Seq<BlockMeta>, key: Seq<u8>, p: int) -> bool {
    &&& 0 <= p <= metas.len()
    &&& p > 0 ==> key_le(metas[p - 1].first_key@, key)
    &&& p < metas.len() ==> !key_le(metas[p].first_key@, key)
}

} // verus!
