use super::{concat_entries, metas_bytes, BlockMeta, SsTable};
use crate::codec::be16;
use crate::block::{
    block_entries, block_wf, decodable, decoded_data, decoded_offsets, encode_spec, lemma_decode_encode, BlockBuilder,
};
use crate::block::{block_full, entry_bytes, lemma_offsets_bytes_len, offsets_bytes};
use crate::codec::{be32, bytes_into_vec, put_u32};
use crate::key::common_prefix_len;
use vstd::prelude::*;
use vstd::slice::slice_to_vec;

verus! {

/// The encoded bytes `bytes` read back as a well-formed block holding exactly `es`:
/// at least one entry, and no empty key.
#[verifier::opaque]
pub open spec fn chunk_ok(bytes: Seq<u8>, es: Seq<(Seq<u8>, Seq<u8>)>) -> bool {
    &&& decodable(bytes)
    &&& block_wf(decoded_data(bytes), decoded_offsets(bytes))
    &&& block_entries(decoded_data(bytes), decoded_offsets(bytes)) == es
    &&& es.len() > 0
    &&& forall|k: int| 0 <= k < es.len() ==> (#[trigger] es[k]).0.len() > 0
}

/// Where finished block `i` ends in `data`: at the next block, or at the end.
pub open spec fn chunk_end(metas: Seq<BlockMeta>, data_len: int, i: int) -> int {
    if i + 1 < metas.len() { metas[i + 1].offset as int } else { data_len }
}

/// The finished blocks tile `data`: block `i` starts at `metas[i].offset`, its
/// bytes read back as `fin[i]`, and its metadata holds its first and last keys.
#[verifier::opaque]
pub open spec fn chunks_inv(data: Seq<u8>, metas: Seq<BlockMeta>, fin: Seq<Seq<(Seq<u8>, Seq<u8>)>>) -> bool {
    &&& metas.len() == fin.len()
    &&& metas.len() > 0 ==> metas[0].offset == 0
    &&& metas.len() == 0 ==> data.len() == 0
    &&& forall|i: int| 0 <= i < metas.len() ==> #[trigger] metas[i].offset <= chunk_end(metas, data.len() as int, i) <= data.len()
    &&& forall|i: int| 0 <= i < metas.len() ==> chunk_ok(
        #[trigger] data.subrange(metas[i].offset as int, chunk_end(metas, data.len() as int, i)),
        fin[i],
    )
    &&& forall|i: int| 0 <= i < metas.len() ==> (#[trigger] metas[i]).first_key@ == fin[i][0].0 && metas[i].last_key@ == fin[i].last().0
}

/// The metadata `m` records a block at `offset` with the given first and last keys.
pub open spec fn meta_is(m: BlockMeta, offset: int, first_key: Seq<u8>, last_key: Seq<u8>) -> bool {
    &&& m.offset == offset
    &&& m.first_key@ == first_key
    &&& m.last_key@ == last_key
}

/// The sizes that decide where the builder starts a new block: the bytes of the
/// finished blocks, the bytes and the number of entries of the block being
/// filled, and its first key.
pub open spec fn size_step(st: (int, int, int, Seq<u8>), key: Seq<u8>, value: Seq<u8>, block_size: int) -> (int, int, int, Seq<u8>) {
    if block_full(st.1, st.2, st.3, key, value, block_size) {
        (st.0 + st.1 + 2 * st.2 + 2, entry_bytes(Seq::empty(), key, value).len() as int, 1, key)
    } else {
        (st.0, st.1 + entry_bytes(st.3, key, value).len(), st.2 + 1, if st.3.len() == 0 { key } else { st.3 })
    }
}

/// The sizes of a builder with nothing added.
pub open spec fn fresh_sizes() -> (int, int, int, Seq<u8>) {
    (0, 0, 0, Seq::empty())
}

/// What a builder holds: the encoded finished blocks with the offset, first and
/// last key of each; the data and offsets of the block being filled and the key
/// its entries are stored relative to; and the first and last keys added to it.
pub struct BuildModel {
    pub data: Seq<u8>,
    pub metas: Seq<(int, Seq<u8>, Seq<u8>)>,
    pub block: Seq<u8>,
    pub offsets: Seq<u16>,
    pub block_key: Seq<u8>,
    pub first_key: Seq<u8>,
    pub last_key: Seq<u8>,
}

/// A builder with nothing added.
pub open spec fn fresh_model() -> BuildModel {
    BuildModel {
        data: Seq::empty(),
        metas: Seq::empty(),
        block: Seq::empty(),
        offsets: Seq::empty(),
        block_key: Seq::empty(),
        first_key: Seq::empty(),
        last_key: Seq::empty(),
    }
}

/// Adding an entry: when the block being filled is full, it is encoded and
/// appended to the finished blocks and a new block takes the entry.
pub open spec fn model_step(m: BuildModel, key: Seq<u8>, value: Seq<u8>, block_size: int) -> BuildModel {
    if block_full(m.block.len() as int, m.offsets.len() as int, m.block_key, key, value, block_size) {
        BuildModel {
            data: m.data + encode_spec(m.block, m.offsets),
            metas: m.metas.push((m.data.len() as int, m.first_key, m.last_key)),
            block: entry_bytes(Seq::empty(), key, value),
            offsets: seq![0u16],
            block_key: key,
            first_key: key,
            last_key: key,
        }
    } else {
        BuildModel {
            data: m.data,
            metas: m.metas,
            block: m.block + entry_bytes(m.block_key, key, value),
            offsets: m.offsets.push(m.block.len() as u16),
            block_key: if m.block_key.len() == 0 { key } else { m.block_key },
            first_key: if m.first_key.len() == 0 { key } else { m.first_key },
            last_key: key,
        }
    }
}

/// The builder after adding the entries one after the other.
pub open spec fn model_of(es: Seq<(Seq<u8>, Seq<u8>)>, block_size: int) -> BuildModel
    decreases es.len(),
{
    if es.len() == 0 {
        fresh_model()
    } else {
        model_step(model_of(es.drop_last(), block_size), es.last().0, es.last().1, block_size)
    }
}

/// The encoding of block metadata given as (offset, first key, last key).
pub open spec fn meta_tuples_bytes(ms: Seq<(int, Seq<u8>, Seq<u8>)>) -> Seq<u8>
    decreases ms.len(),
{
    if ms.len() == 0 {
        Seq::empty()
    } else {
        let m = ms.last();
        meta_tuples_bytes(ms.drop_last()) + be32(m.0 as u32) + be16(m.1.len() as u16) + m.1 + be16(m.2.len() as u16) + m.2
    }
}

/// The block metadata as (offset, first key, last key).
pub open spec fn metas_view(ms: Seq<BlockMeta>) -> Seq<(int, Seq<u8>, Seq<u8>)> {
    Seq::new(ms.len(), |i: int| (ms[i].offset as int, ms[i].first_key@, ms[i].last_key@))
}

/// The table is the one built from the builder state `m`: the block being filled
/// is encoded and appended, then the block metadata and where it starts.
pub open spec fn built_from(t: SsTable, m: BuildModel) -> bool {
    let data = m.data + encode_spec(m.block, m.offsets);
    let metas = m.metas.push((m.data.len() as int, m.first_key, m.last_key));
    &&& metas_view(t.block_meta@) == metas
    &&& t.block_meta_offset == data.len()
    &&& t.file@ == data + meta_tuples_bytes(metas) + be32(data.len() as u32)
    &&& t.first_key@ == metas[0].1
    &&& t.last_key@ == metas.last().2
    &&& t.max_ts == 0
}

proof fn lemma_metas_bytes_view(ms: Seq<BlockMeta>)
    ensures
        metas_bytes(ms) == meta_tuples_bytes(metas_view(ms)),
    decreases ms.len(),
{
    if ms.len() > 0 {
        lemma_metas_bytes_view(ms.drop_last());
        assert(metas_view(ms).drop_last() =~= metas_view(ms.drop_last()));
    }
}

/// Builds an SSTable from key-value pairs.
pub struct SsTableBuilder {
    builder: BlockBuilder,
    first_key: Vec<u8>,
    last_key: Vec<u8>,
    data: Vec<u8>,
    meta: Vec<BlockMeta>,
    block_size: usize,
    /// The entries of each finished block.
    finished: Ghost<Seq<Seq<(Seq<u8>, Seq<u8>)>>>,
}

impl SsTableBuilder {
    /// The encoded finished blocks.
    pub closed spec fn data_spec(&self) -> Seq<u8> {
        self.data@
    }

    /// The metadata of the finished blocks.
    pub closed spec fn metas(&self) -> Seq<BlockMeta> {
        self.meta@
    }

    pub closed spec fn block_size_spec(&self) -> usize {
        self.block_size
    }

    /// The block being filled.
    pub closed spec fn current(&self) -> BlockBuilder {
        self.builder
    }

    /// What the builder holds.
    pub open spec fn model(&self) -> BuildModel {
        BuildModel {
            data: self.data_spec(),
            metas: metas_view(self.metas()),
            block: self.current().data_spec(),
            offsets: self.current().offsets_spec(),
            block_key: self.current().first_key_spec(),
            first_key: self.current_first_key(),
            last_key: self.current_last_key(),
        }
    }

    /// The sizes that decide where the next block starts.
    pub open spec fn sizes(&self) -> (int, int, int, Seq<u8>) {
        (
            self.data_spec().len() as int,
            self.current().data_spec().len() as int,
            self.current().offsets_spec().len() as int,
            self.current().first_key_spec(),
        )
    }

    /// The first key of the block being filled (empty before its first entry).
    pub closed spec fn current_first_key(&self) -> Seq<u8> {
        self.first_key@
    }

    /// The last key added to the block being filled (empty before its first entry).
    pub closed spec fn current_last_key(&self) -> Seq<u8> {
        self.last_key@
    }

    /// The entries of each finished block.
    pub closed spec fn finished_blocks(&self) -> Seq<Seq<(Seq<u8>, Seq<u8>)>> {
        self.finished@
    }

    /// All key-value pairs added so far, in order.
    pub open spec fn entries(&self) -> Seq<(Seq<u8>, Seq<u8>)> {
        concat_entries(self.finished_blocks()) + self.current().entries()
    }

    /// The bytes built so far read back as exactly the entries added.
    pub closed spec fn sound(&self) -> bool {
        let fin = self.finished@;
        let metas = self.meta@;
        let cur = self.builder.entries();
        &&& self.builder.sound()
        &&& self.builder.block_size_spec() == self.block_size
        &&& self.block_size <= 0xffff
        &&& metas.len() == fin.len()
        &&& fin.len() > 0 ==> cur.len() > 0
        &&& chunks_inv(self.data@, metas, fin)
        &&& forall|k: int| 0 <= k < cur.len() ==> (#[trigger] cur[k]).0.len() > 0
        &&& cur.len() > 0 ==> self.first_key@ == cur[0].0 && self.last_key@ == cur.last().0
        &&& cur.len() == 0 ==> self.first_key@.len() == 0
    }

    /// What soundness says of the block being filled and the block size.
    pub proof fn lemma_sound(&self)
        requires
            self.sound(),
        ensures
            self.current().sound(),
            self.current().block_size_spec() == self.block_size_spec(),
            self.current().data_spec().len() <= 0x20004,
            self.block_size_spec() <= 0xffff,
            self.current().offsets_spec().len() * 6 <= self.current().data_spec().len(),
    {
    }

    /// Creates a builder based on the target block size.
    pub fn new(block_size: usize) -> (b: Self)
        ensures
            b.entries() == Seq::<(Seq<u8>, Seq<u8>)>::empty(),
            b.data_spec() == Seq::<u8>::empty(),
            b.metas() == Seq::<BlockMeta>::empty(),
            b.block_size_spec() == block_size,
            b.current().entries().len() == 0,
            b.current().block_size_spec() == block_size,
            b.sizes() == fresh_sizes(),
            b.model() == fresh_model(),
            block_size <= 0xffff ==> b.sound(),
    {
        let b = SsTableBuilder {
            builder: BlockBuilder::new(block_size),
            first_key: Vec::new(),
            last_key: Vec::new(),
            data: Vec::new(),
            meta: Vec::new(),
            block_size,
            finished: Ghost(Seq::empty()),
        };
        assert(concat_entries(b.finished@) =~= Seq::<(Seq<u8>, Seq<u8>)>::empty());
        proof {
            reveal(chunks_inv);
        }
        assert(b.entries() =~= Seq::<(Seq<u8>, Seq<u8>)>::empty());
        assert(metas_view(b.metas()) =~= Seq::<(int, Seq<u8>, Seq<u8>)>::empty());
        assert(b.current_first_key() =~= Seq::<u8>::empty());
        assert(b.current_last_key() =~= Seq::<u8>::empty());
        b
    }

    /// Adds a key-value pair to the SSTable, starting a new block when the current
    /// one is full: the full block is encoded and appended to the data, and its
    /// metadata recorded. The finished data, and so the estimated size, never shrinks.
    #[verifier::rlimit(100)]
    pub fn add(&mut self, key: &[u8], value: &[u8])
        ensures
            final(self).entries() == old(self).entries().push((key@, value@)),
            final(self).block_size_spec() == old(self).block_size_spec(),
            old(self).data_spec().len() <= final(self).data_spec().len(),
            ({
                let cur = old(self).current();
                let full = crate::block::block_full(
                    cur.data_spec().len() as int,
                    cur.offsets_spec().len() as int,
                    cur.first_key_spec(),
                    key@,
                    value@,
                    cur.block_size_spec() as int,
                );
                &&& full ==> final(self).data_spec() == old(self).data_spec() + encode_spec(cur.data_spec(), cur.offsets_spec())
                &&& full ==> final(self).metas().len() == old(self).metas().len() + 1
                    && final(self).metas().drop_last() == old(self).metas()
                    && meta_is(final(self).metas().last(), old(self).data_spec().len() as int,
                        old(self).current_first_key(), old(self).current_last_key())
                &&& !full ==> final(self).data_spec() == old(self).data_spec() && final(self).metas() == old(self).metas()
                &&& full ==> final(self).current().data_spec() == entry_bytes(Seq::empty(), key@, value@)
                    && final(self).current().offsets_spec() == seq![0u16]
                    && final(self).current().first_key_spec() == key@
                &&& !full ==> final(self).current().data_spec() == cur.data_spec() + entry_bytes(cur.first_key_spec(), key@, value@)
                    && final(self).current().offsets_spec() == cur.offsets_spec().push(cur.data_spec().len() as u16)
                    && final(self).current().first_key_spec() == if cur.first_key_spec().len() == 0 { key@ } else { cur.first_key_spec() }
                &&& full ==> final(self).current_first_key() == key@
                &&& !full ==> final(self).current_first_key() == if old(self).current_first_key().len() == 0 {
                    key@
                } else {
                    old(self).current_first_key()
                }
            }),
            final(self).current_last_key() == key@,
            old(self).sound() && key@.len() > 0 && key@.len() <= 0xffff && value@.len() <= 0xffff ==> final(self).sound(),
    {
        let ghost old_self = *self;
        let ghost cur_entries = self.builder.entries();
        if !self.builder.add(key, value) {
            let bs = self.block_size;
            let mut this_builder = BlockBuilder::new(bs);
            std::mem::swap(&mut self.builder, &mut this_builder);
            let ghost fin_block = this_builder;
            let block = this_builder.build();
            let encoded = block.encode();
            let mut block_data = bytes_into_vec(encoded);
            let mut this_first_key: Vec<u8> = Vec::new();
            std::mem::swap(&mut self.first_key, &mut this_first_key);
            let mut this_last_key: Vec<u8> = Vec::new();
            std::mem::swap(&mut self.last_key, &mut this_last_key);
            let ghost old_data = self.data@;
            let this_meta = BlockMeta { offset: self.data.len(), first_key: this_first_key, last_key: this_last_key };
            let ghost this_meta_ghost = this_meta;
            self.meta.push(this_meta);
            self.data.append(&mut block_data);
            self.finished = Ghost(self.finished@.push(cur_entries));
            let ghost fresh = self.builder;
            let added = self.builder.add(key, value);
            proof {
                assert(added);
                lemma_offsets_bytes_len(fin_block.offsets_spec());
                assert(fresh.data_spec() + entry_bytes(fresh.first_key_spec(), key@, value@) =~= entry_bytes(Seq::empty(), key@, value@));
                assert(self.builder.offsets_spec() =~= seq![0u16]);
                lemma_entry_bytes_len(fresh.first_key_spec(), key@, value@);
                assert(self.builder.entries() =~= seq![(key@, value@)]);
                assert(self.data@ == old_data + encode_spec(fin_block.data_spec(), fin_block.offsets_spec()));
                if old_self.sound() && key@.len() > 0 && key@.len() <= 0xffff && value@.len() <= 0xffff {
                    lemma_encoded_chunk(fin_block);
                    lemma_split_sound(old_data, old_self.meta@, old_self.finished@,
                        encode_spec(fin_block.data_spec(), fin_block.offsets_spec()), cur_entries, this_meta_ghost);
                }
            }
        } else {
            proof {
                lemma_entry_bytes_len(old_self.builder.first_key_spec(), key@, value@);
                if old_self.sound() && key@.len() > 0 && key@.len() <= 0xffff && value@.len() <= 0xffff {
                    assert(self.builder.sound());
                }
            }
        }
        if self.first_key.len() == 0 {
            self.first_key = slice_to_vec(key);
        }
        self.last_key.clear();
        self.last_key.extend_from_slice(key);
        proof {
            assert(self.last_key@ =~= key@);
            assert(concat_entries(self.finished@) + self.builder.entries() =~= concat_entries(old_self.finished@) + old_self.builder.entries().push((key@, value@))) by {
                if self.finished@.len() > old_self.finished@.len() {
                    assert(self.finished@.drop_last() =~= old_self.finished@);
                }
            }
        }
    }

    /// The estimated size of the SSTable: the size of its data blocks (the
    /// metadata is much smaller), counting the block being filled as full.
    pub fn estimated_size(&self) -> (r: usize)
        requires
            self.data_spec().len() + self.block_size_spec() <= usize::MAX,
        ensures
            r == self.data_spec().len() + self.block_size_spec(),
    {
        self.data.len() + self.block_size
    }

    /// No key-value pair has been added.
    pub fn is_empty(&self) -> (r: bool)
        requires
            self.sound(),
        ensures
            r == (self.entries().len() == 0),
    {
        proof {
            if self.finished@.len() == 0 {
                assert(concat_entries(self.finished@).len() == 0);
            }
        }
        self.meta.len() == 0 && self.builder.is_empty()
    }

    /// Builds the SSTable: the block being filled is encoded and appended, then the
    /// block metadata and the offset where it starts.
    pub fn build(self, id: usize) -> (t: SsTable)
        ensures
            t.id == id,
            t.max_ts == 0,
            ({
                let cur = self.current();
                let data = self.data_spec() + encode_spec(cur.data_spec(), cur.offsets_spec());
                &&& t.block_meta@.len() == self.metas().len() + 1
                &&& t.block_meta@.drop_last() == self.metas()
                &&& meta_is(t.block_meta@.last(), self.data_spec().len() as int, self.current_first_key(), self.current_last_key())
                &&& t.block_meta_offset == data.len()
                &&& t.file@ == data + metas_bytes(t.block_meta@) + be32(data.len() as u32)
            }),
            built_from(t, self.model()),
            self.sound() ==> t.wf() && t.entries() == self.entries(),
    {
        let ghost old_self = self;
        let SsTableBuilder { builder, first_key, last_key, mut data, mut meta, block_size, finished } = self;
        let ghost last_builder = builder;
        let last_block = builder.build();
        let encoded = last_block.encode();
        let mut last_data = bytes_into_vec(encoded);
        let last_meta = BlockMeta { offset: data.len(), first_key, last_key };
        meta.push(last_meta);
        let ghost data_before = data@;
        data.append(&mut last_data);
        let block_meta_offset = data.len();
        let ghost blocks_data = data@;
        BlockMeta::encode_block_meta(meta.as_slice(), &mut data);
        put_u32(&mut data, block_meta_offset as u32);
        let first = slice_to_vec(meta[0].first_key.as_slice());
        let last = slice_to_vec(meta[meta.len() - 1].last_key.as_slice());
        let t = SsTable {
            file: data,
            block_meta: meta,
            block_meta_offset,
            id,
            first_key: first,
            last_key: last,
            max_ts: 0,
        };
        proof {
            if old_self.sound() {
                let enc = encode_spec(last_builder.data_spec(), last_builder.offsets_spec());
                let cur = last_builder.entries();
                if cur.len() > 0 {
                    lemma_encoded_chunk(last_builder);
                } else {
                    assert(last_builder.data_spec() =~= Seq::<u8>::empty());
                    assert(last_builder.offsets_spec() =~= Seq::<u16>::empty());
                }
                assert(t.block_meta@.drop_last() =~= old_self.meta@);
                assert(blocks_data.is_prefix_of(t.file@));
                lemma_build_wf(data_before, old_self.meta@, old_self.finished@, t, enc, cur);
            }
            let m = old_self.model();
            lemma_metas_bytes_view(t.block_meta@);
            assert(t.block_meta@.drop_last() =~= old_self.meta@);
            assert(metas_view(t.block_meta@) =~= m.metas.push((m.data.len() as int, m.first_key, m.last_key))) by {
                let n = old_self.meta@.len();
                assert forall|i: int| 0 <= i < n implies t.block_meta@[i] == old_self.meta@[i] by {
                    assert(t.block_meta@.drop_last()[i] == t.block_meta@[i]);
                }
            }
        }
        t
    }
}

proof fn lemma_entry_bytes_len(fk: Seq<u8>, key: Seq<u8>, value: Seq<u8>)
    ensures
        entry_bytes(fk, key, value).len() == 6 + (key.len() - common_prefix_len(fk, key)) + value.len(),
        entry_bytes(fk, key, value).len() <= 6 + key.len() + value.len(),
        entry_bytes(fk, key, value).len() >= 6,
{
    crate::key::lemma_common_prefix_len(fk, key);
}

/// A block builder's sound bytes, encoded, read back as its entries.
proof fn lemma_encoded_chunk(b: BlockBuilder)
    requires
        b.sound(),
        b.entries().len() > 0,
        forall|k: int| 0 <= k < b.entries().len() ==> (#[trigger] b.entries()[k]).0.len() > 0,
    ensures
        chunk_ok(encode_spec(b.data_spec(), b.offsets_spec()), b.entries()),
{
    reveal(chunk_ok);
    lemma_decode_encode(b.data_spec(), b.offsets_spec());
}

proof fn lemma_split_sound(
    d: Seq<u8>,
    om: Seq<BlockMeta>,
    fin: Seq<Seq<(Seq<u8>, Seq<u8>)>>,
    enc: Seq<u8>,
    es: Seq<(Seq<u8>, Seq<u8>)>,
    m: BlockMeta,
)
    requires
        chunks_inv(d, om, fin),
        chunk_ok(enc, es),
        es.len() > 0,
        m.offset == d.len(),
        m.first_key@ == es[0].0,
        m.last_key@ == es.last().0,
    ensures
        chunks_inv(d + enc, om.push(m), fin.push(es)),
{
    reveal(chunks_inv);
    let d2 = d + enc;
    let metas = om.push(m);
    let n = om.len();
    assert forall|i: int| 0 <= i < metas.len() implies #[trigger] metas[i].offset <= chunk_end(metas, d2.len() as int, i) <= d2.len()
        && chunk_ok(d2.subrange(metas[i].offset as int, chunk_end(metas, d2.len() as int, i)), fin.push(es)[i])
        && metas[i].first_key@ == fin.push(es)[i][0].0 && metas[i].last_key@ == fin.push(es)[i].last().0 by {
        if i < n {
            assert(metas[i] == om[i]);
            assert(om[i].offset <= chunk_end(om, d.len() as int, i) <= d.len());
            assert(chunk_end(metas, d2.len() as int, i) == chunk_end(om, d.len() as int, i));
            assert(chunk_ok(d.subrange(om[i].offset as int, chunk_end(om, d.len() as int, i)), fin[i]));
            assert(d2.subrange(metas[i].offset as int, chunk_end(metas, d2.len() as int, i)) =~= d.subrange(om[i].offset as int, chunk_end(om, d.len() as int, i)));
            assert(om[i].first_key@ == fin[i][0].0);
        } else {
            assert(d2.subrange(metas[i].offset as int, chunk_end(metas, d2.len() as int, i)) =~= enc);
        }
    }
}

proof fn lemma_chunk_block_ok(t: SsTable, i: int, es: Seq<(Seq<u8>, Seq<u8>)>)
    requires
        0 <= i < t.block_meta@.len(),
        t.block_meta@[i].offset <= t.block_end(i) <= t.file@.len(),
        chunk_ok(t.block_bytes(i), es),
        t.block_meta@[i].first_key@ == es[0].0,
        t.block_meta@[i].last_key@ == es.last().0,
    ensures
        t.block_ok(i),
        t.block_entries_at(i) == es,
{
    reveal(chunk_ok);
}

proof fn lemma_empty_block_ok(t: SsTable)
    requires
        t.block_meta@.len() == 1,
        t.block_meta@[0].offset <= t.block_end(0) <= t.file@.len(),
        t.block_bytes(0) == encode_spec(Seq::empty(), Seq::empty()),
    ensures
        t.block_ok(0),
        t.block_entries_at(0) == Seq::<(Seq<u8>, Seq<u8>)>::empty(),
{
    lemma_decode_encode(Seq::empty(), Seq::empty());
    assert(t.block_entries_at(0) =~= Seq::<(Seq<u8>, Seq<u8>)>::empty());
}

proof fn lemma_build_wf(
    d: Seq<u8>,
    om: Seq<BlockMeta>,
    fin: Seq<Seq<(Seq<u8>, Seq<u8>)>>,
    t: SsTable,
    enc: Seq<u8>,
    cur: Seq<(Seq<u8>, Seq<u8>)>,
)
    requires
        chunks_inv(d, om, fin),
        fin.len() > 0 ==> cur.len() > 0,
        cur.len() > 0 ==> chunk_ok(enc, cur),
        cur.len() == 0 ==> enc == encode_spec(Seq::empty(), Seq::empty()),
        t.block_meta@.len() == om.len() + 1,
        t.block_meta@.drop_last() == om,
        t.block_meta@.last().offset == d.len(),
        cur.len() > 0 ==> t.block_meta@.last().first_key@ == cur[0].0 && t.block_meta@.last().last_key@ == cur.last().0,
        t.block_meta_offset == d.len() + enc.len(),
        (d + enc).is_prefix_of(t.file@),
        t.first_key@ == t.block_meta@[0].first_key@,
        t.last_key@ == t.block_meta@[t.block_meta@.len() - 1].last_key@,
    ensures
        t.wf(),
        t.entries() == concat_entries(fin) + cur,
{
    reveal(chunks_inv);
    let n = om.len();
    let metas = t.block_meta@;
    let file = t.file@;
    let all = fin.push(cur);
    let de = d + enc;
    assert forall|i: int| 0 <= i < metas.len() implies #[trigger] t.block_ok(i) && t.block_entries_at(i) == all[i] by {
        if i < n {
            assert(metas[i] == om[i]);
            assert(om[i].offset <= chunk_end(om, d.len() as int, i) <= d.len());
            assert(t.block_end(i) == chunk_end(om, d.len() as int, i));
            assert(file.subrange(om[i].offset as int, t.block_end(i)) =~= de.subrange(om[i].offset as int, t.block_end(i)));
            assert(t.block_bytes(i) =~= d.subrange(om[i].offset as int, chunk_end(om, d.len() as int, i)));
            lemma_chunk_block_ok(t, i, fin[i]);
        } else {
            assert(file.subrange(d.len() as int, t.block_end(i)) =~= de.subrange(d.len() as int, t.block_end(i)));
            assert(t.block_bytes(i) =~= enc);
            if cur.len() > 0 {
                lemma_chunk_block_ok(t, i, cur);
            } else {
                lemma_empty_block_ok(t);
            }
        }
    }
    assert forall|i: int| 0 <= i < metas.len() implies #[trigger] t.blocks()[i] == all[i] by {
        assert(t.block_ok(i));
    }
    assert(t.blocks() =~= all);
    assert(all.drop_last() =~= fin);
}

/// What adding an entry does to what the builder holds, from the facts that
/// `SsTableBuilder::add` ensures.
pub proof fn lemma_add_model(b0: SsTableBuilder, b1: SsTableBuilder, key: Seq<u8>, value: Seq<u8>)
    requires
        ({
            let cur = b0.current();
            let full = block_full(cur.data_spec().len() as int, cur.offsets_spec().len() as int, cur.first_key_spec(), key, value, cur.block_size_spec() as int);
            &&& full ==> b1.data_spec() == b0.data_spec() + encode_spec(cur.data_spec(), cur.offsets_spec())
            &&& full ==> b1.metas().len() == b0.metas().len() + 1 && b1.metas().drop_last() == b0.metas()
                && meta_is(b1.metas().last(), b0.data_spec().len() as int, b0.current_first_key(), b0.current_last_key())
            &&& !full ==> b1.data_spec() == b0.data_spec() && b1.metas() == b0.metas()
            &&& full ==> b1.current().data_spec() == entry_bytes(Seq::empty(), key, value)
                && b1.current().offsets_spec() == seq![0u16]
                && b1.current().first_key_spec() == key
            &&& !full ==> b1.current().data_spec() == cur.data_spec() + entry_bytes(cur.first_key_spec(), key, value)
                && b1.current().offsets_spec() == cur.offsets_spec().push(cur.data_spec().len() as u16)
                && b1.current().first_key_spec() == if cur.first_key_spec().len() == 0 { key } else { cur.first_key_spec() }
            &&& full ==> b1.current_first_key() == key
            &&& !full ==> b1.current_first_key() == if b0.current_first_key().len() == 0 { key } else { b0.current_first_key() }
        }),
        b1.current_last_key() == key,
    ensures
        b1.model() == model_step(b0.model(), key, value, b0.current().block_size_spec() as int),
{
    let cur = b0.current();
    let full = block_full(cur.data_spec().len() as int, cur.offsets_spec().len() as int, cur.first_key_spec(), key, value, cur.block_size_spec() as int);
    if full {
        assert(metas_view(b1.metas()) =~= metas_view(b0.metas()).push((b0.data_spec().len() as int, b0.current_first_key(), b0.current_last_key()))) by {
            let n = b0.metas().len();
            assert forall|i: int| 0 <= i < n implies b1.metas()[i] == b0.metas()[i] by {
                assert(b1.metas().drop_last()[i] == b1.metas()[i]);
            }
        }
    }
}

} // verus!
