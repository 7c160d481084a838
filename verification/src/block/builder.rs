use super::{block_entries, block_wf, entry_in_bounds, entry_key, entry_value, first_key_of, Block};
use crate::codec::{be16, lemma_read_be16_at, put_slice, put_u16, read_be16};
use crate::key::{common_prefix_len, common_prefix_len_exec, lemma_common_prefix_len};
use vstd::prelude::*;
use vstd::slice::{slice_subrange, slice_to_vec};

verus! {

/// The bytes of one entry, its key stored relative to the block's first key.
pub open spec fn entry_bytes(first_key: Seq<u8>, key: Seq<u8>, value: Seq<u8>) -> Seq<u8> {
    let o = common_prefix_len(first_key, key);
    be16(o as u16) + be16((key.len() - o) as u16) + key.subrange(o as int, key.len() as int) + be16(
        value.len() as u16,
    ) + value
}

/// Adding the entry would overflow the expected block size; a block's first entry
/// is always taken.
pub open spec fn block_full(
    data_len: int,
    num_entries: int,
    first_key: Seq<u8>,
    key: Seq<u8>,
    value: Seq<u8>,
    block_size: int,
) -> bool {
    let rest = key.len() - common_prefix_len(first_key, key);
    &&& num_entries > 0
    &&& data_len + (4 + rest + 2 + value.len()) + ((num_entries + 1) * 2 + 2) > block_size
}

/// Builds a block.
pub struct BlockBuilder {
    /// Offsets of each key-value entry.
    offsets: Vec<u16>,
    /// All serialized key-value pairs in the block.
    data: Vec<u8>,
    /// The expected block size.
    block_size: usize,
    /// The first key in the block.
    first_key: Vec<u8>,
    /// The entries added so far.
    entries: Ghost<Seq<(Seq<u8>, Seq<u8>)>>,
}

impl BlockBuilder {
    pub closed spec fn data_spec(&self) -> Seq<u8> {
        self.data@
    }

    pub closed spec fn offsets_spec(&self) -> Seq<u16> {
        self.offsets@
    }

    pub closed spec fn block_size_spec(&self) -> usize {
        self.block_size
    }

    pub closed spec fn first_key_spec(&self) -> Seq<u8> {
        self.first_key@
    }

    /// The key-value pairs added so far, in order.
    pub closed spec fn entries(&self) -> Seq<(Seq<u8>, Seq<u8>)> {
        self.entries@
    }

    /// The bytes built so far read back as exactly the entries added: the first
    /// key is not empty and every offset and length fits its two bytes.
    pub open spec fn sound(&self) -> bool {
        &&& self.entries().len() == self.offsets_spec().len()
        &&& self.offsets_spec().len() * 6 <= self.data_spec().len()
        &&& self.entries().len() == 0 ==> self.data_spec().len() == 0 && self.first_key_spec().len() == 0
        &&& self.entries().len() > 0 ==> {
            &&& self.entries()[0].0.len() > 0
            &&& self.first_key_spec() == self.entries()[0].0
            &&& self.offsets_spec()[0] == 0
            &&& self.data_spec().len() <= 0x20004
            &&& first_key_of(self.data_spec()) == self.first_key_spec()
            &&& block_wf(self.data_spec(), self.offsets_spec())
            &&& block_entries(self.data_spec(), self.offsets_spec()) == self.entries()
        }
    }

    /// The layout of what was added: one offset per entry added, the first at 0,
    /// each within the data and after the one before it; and once the block holds
    /// two entries or more, the data, the offsets and the count fit the block size.
    pub open spec fn layout_ok(&self) -> bool {
        let offs = self.offsets_spec();
        &&& offs.len() == self.entries().len()
        &&& offs.len() == 0 ==> self.data_spec().len() == 0
        &&& offs.len() > 0 ==> offs[0] == 0
        &&& forall|i: int, j: int| 0 <= i < j < offs.len() ==> offs[i] < offs[j]
        &&& forall|i: int| 0 <= i < offs.len() ==> offs[i] < self.data_spec().len()
        &&& offs.len() >= 2 ==> self.data_spec().len() + 2 * offs.len() + 2 <= self.block_size_spec()
    }

    /// Creates a new block builder.
    pub fn new(block_size: usize) -> (b: Self)
        ensures
            b.data_spec() == Seq::<u8>::empty(),
            b.offsets_spec() == Seq::<u16>::empty(),
            b.first_key_spec() == Seq::<u8>::empty(),
            b.block_size_spec() == block_size,
            b.entries() == Seq::<(Seq<u8>, Seq<u8>)>::empty(),
            b.sound(),
            b.layout_ok(),
    {
        BlockBuilder {
            offsets: Vec::new(),
            data: Vec::new(),
            block_size,
            first_key: Vec::new(),
            entries: Ghost(Seq::empty()),
        }
    }

    /// Adds a key-value pair to the block. Returns false when the block is full.
    pub fn add(&mut self, key: &[u8], value: &[u8]) -> (added: bool)
        ensures
            added == !block_full(
                old(self).data_spec().len() as int,
                old(self).offsets_spec().len() as int,
                old(self).first_key_spec(),
                key@,
                value@,
                old(self).block_size_spec() as int,
            ),
            !added ==> *final(self) == *old(self),
            added ==> {
                &&& final(self).data_spec() == old(self).data_spec() + entry_bytes(old(self).first_key_spec(), key@, value@)
                &&& final(self).offsets_spec() == old(self).offsets_spec().push(old(self).data_spec().len() as u16)
                &&& final(self).first_key_spec() == if old(self).first_key_spec().len() == 0 {
                    key@
                } else {
                    old(self).first_key_spec()
                }
                &&& final(self).block_size_spec() == old(self).block_size_spec()
                &&& final(self).entries() == old(self).entries().push((key@, value@))
            },
            old(self).sound() && added && (old(self).entries().len() > 0 || key@.len() > 0)
                && key@.len() <= 0xffff && value@.len() <= 0xffff
                && (old(self).entries().len() > 0 ==> final(self).data_spec().len() <= 0xffff) ==> final(self).sound(),
            old(self).layout_ok() && old(self).block_size_spec() <= 0xffff ==> final(self).layout_ok(),
    {
        let overlap = common_prefix_len_exec(self.first_key.as_slice(), key);
        proof {
            lemma_common_prefix_len(self.first_key@, key@);
        }
        let rest_key_len = key.len() - overlap;
        let n = self.offsets.len();
        let need: u128 = self.data.len() as u128 + (4 + rest_key_len as u128 + 2 + value.len() as u128)
            + ((n as u128 + 1) * 2 + 2);
        if n > 0 && need > self.block_size as u128 {
            return false;
        }
        let ghost old_self = *self;
        self.offsets.push(self.data.len() as u16);
        if self.first_key.is_empty() {
            self.first_key = slice_to_vec(key);
        }
        put_u16(&mut self.data, overlap as u16);
        put_u16(&mut self.data, rest_key_len as u16);
        put_slice(&mut self.data, slice_subrange(key, overlap, key.len()));
        put_u16(&mut self.data, value.len() as u16);
        put_slice(&mut self.data, value);
        self.entries = Ghost(self.entries@.push((key@, value@)));
        proof {
            let eb = entry_bytes(old_self.first_key@, key@, value@);
            assert(eb.len() == 6 + rest_key_len + value@.len());
            if old_self.layout_ok() && old_self.block_size <= 0xffff {
                assert(n == 0 ==> old_self.data@.len() == 0);
                assert(n > 0 ==> old_self.data@.len() <= 0xffff);
                assert((old_self.data@.len() as u16) as int == old_self.data@.len());
                let offs = self.offsets@;
                assert forall|i: int, j: int| 0 <= i < j < offs.len() implies offs[i] < offs[j] by {
                    if j < n {
                        assert(offs[i] == old_self.offsets@[i] && offs[j] == old_self.offsets@[j]);
                    } else {
                        assert(offs[i] == old_self.offsets@[i]);
                    }
                }
                assert forall|i: int| 0 <= i < offs.len() implies offs[i] < self.data@.len() by {
                    if i < n {
                        assert(offs[i] == old_self.offsets@[i]);
                    }
                }
            }
        }
        proof {
            assert(self.data@ =~= old_self.data@ + entry_bytes(old_self.first_key@, key@, value@));
            if old_self.sound() && (old_self.entries@.len() > 0 || key@.len() > 0) && key@.len() <= 0xffff && value@.len() <= 0xffff
                && (old_self.entries@.len() > 0 ==> self.data@.len() <= 0xffff) {
                lemma_add_sound(old_self, *self, key@, value@);
            }
        }
        true
    }

    /// Checks if there is no key-value pair in the block.
    pub fn is_empty(&self) -> (r: bool)
        ensures
            r == (self.offsets_spec().len() == 0),
            self.layout_ok() ==> (r <==> self.entries().len() == 0),
    {
        self.offsets.len() == 0
    }

    /// Finalizes the block.
    pub fn build(self) -> (b: Block)
        ensures
            b.data@ == self.data_spec(),
            b.offsets@ == self.offsets_spec(),
            self.sound() ==> b.wf() && b.entries() == self.entries(),
    {
        Block { data: self.data, offsets: self.offsets }
    }
}

proof fn lemma_entry_prefix(data: Seq<u8>, extra: Seq<u8>, off: int, fk: Seq<u8>)
    requires
        entry_in_bounds(data, off, fk),
    ensures
        entry_in_bounds(data + extra, off, fk),
        entry_key(data + extra, off, fk) == entry_key(data, off, fk),
        entry_value(data + extra, off) == entry_value(data, off),
{
    let d2 = data + extra;
    assert(read_be16(d2, off) == read_be16(data, off));
    assert(read_be16(d2, off + 2) == read_be16(data, off + 2));
    let r = read_be16(data, off + 2) as int;
    assert(read_be16(d2, off + 4 + r) == read_be16(data, off + 4 + r));
    assert(entry_key(d2, off, fk) =~= entry_key(data, off, fk));
    assert(entry_value(d2, off) =~= entry_value(data, off));
}

proof fn lemma_entry_new(data: Seq<u8>, fk: Seq<u8>, key: Seq<u8>, value: Seq<u8>)
    requires
        key.len() - common_prefix_len(fk, key) <= 0xffff,
        value.len() <= 0xffff,
        fk.len() <= 0xffff,
    ensures
        entry_in_bounds(data + entry_bytes(fk, key, value), data.len() as int, fk),
        entry_key(data + entry_bytes(fk, key, value), data.len() as int, fk) == key,
        entry_value(data + entry_bytes(fk, key, value), data.len() as int) == value,
{
    lemma_common_prefix_len(fk, key);
    let o = common_prefix_len(fk, key) as int;
    let r = key.len() - o;
    let eb = entry_bytes(fk, key, value);
    let d2 = data + eb;
    let off = data.len() as int;
    assert(d2.subrange(off, off + 2) =~= be16(o as u16));
    lemma_read_be16_at(d2, off, o as u16);
    assert(d2.subrange(off + 2, off + 4) =~= be16(r as u16));
    lemma_read_be16_at(d2, off + 2, r as u16);
    assert(d2.subrange(off + 4 + r, off + 6 + r) =~= be16(value.len() as u16));
    lemma_read_be16_at(d2, off + 4 + r, value.len() as u16);
    assert(d2.subrange(off + 4, off + 4 + r) =~= key.subrange(o, key.len() as int));
    assert(key.take(o) =~= fk.take(o));
    assert(fk.take(o) + key.subrange(o, key.len() as int) =~= key);
    assert(entry_key(d2, off, fk) =~= key);
    assert(entry_value(d2, off) =~= value);
}

#[verifier::spinoff_prover]
#[verifier::rlimit(30)]
proof fn lemma_add_first(d2: Seq<u8>, offs: Seq<u16>, entries: Seq<(Seq<u8>, Seq<u8>)>, key: Seq<u8>, value: Seq<u8>)
    requires
        key.len() > 0,
        d2 == entry_bytes(Seq::empty(), key, value),
        key.len() <= 0xffff,
        value.len() <= 0xffff,
        offs == seq![0u16],
        entries == seq![(key, value)],
    ensures
        first_key_of(d2) == key,
        block_wf(d2, offs),
        block_entries(d2, offs) == entries,
{
    let fk = Seq::<u8>::empty();
    lemma_entry_new(Seq::empty(), fk, key, value);
    assert(Seq::<u8>::empty() + d2 =~= d2);
    assert(common_prefix_len(fk, key) == 0);
    assert(d2.subrange(2, 4) =~= be16(key.len() as u16));
    lemma_read_be16_at(d2, 2, key.len() as u16);
    assert(first_key_of(d2) =~= key);
    assert(d2.subrange(0, 2) =~= be16(0u16));
    lemma_read_be16_at(d2, 0, 0u16);
    assert(key.take(0) =~= fk.take(0));
    assert(entry_key(d2, 0, key) =~= entry_key(d2, 0, fk));
    assert(entry_in_bounds(d2, 0, key));
    assert(block_entries(d2, offs) =~= entries);
}

proof fn lemma_add_next(
    d: Seq<u8>,
    offs: Seq<u16>,
    entries: Seq<(Seq<u8>, Seq<u8>)>,
    fk: Seq<u8>,
    key: Seq<u8>,
    value: Seq<u8>,
)
    requires
        offs.len() > 0,
        d.len() >= 4,
        fk == first_key_of(d),
        4 + read_be16(d, 2) <= d.len(),
        block_wf(d, offs),
        block_entries(d, offs) == entries,
        d.len() + entry_bytes(fk, key, value).len() <= 0xffff,
    ensures
        first_key_of(d + entry_bytes(fk, key, value)) == fk,
        block_wf(d + entry_bytes(fk, key, value), offs.push(d.len() as u16)),
        block_entries(d + entry_bytes(fk, key, value), offs.push(d.len() as u16)) == entries.push((key, value)),
{
    let eb = entry_bytes(fk, key, value);
    let d2 = d + eb;
    let offs2 = offs.push(d.len() as u16);
    let n = offs.len();
    lemma_entry_new(d, fk, key, value);
    assert(read_be16(d2, 2) == read_be16(d, 2));
    assert(first_key_of(d2) =~= fk);
    assert forall|i: int| 0 <= i < offs2.len() implies entry_in_bounds(d2, #[trigger] offs2[i] as int, fk)
        && entry_key(d2, offs2[i] as int, fk) == entries.push((key, value))[i].0
        && entry_value(d2, offs2[i] as int) == entries.push((key, value))[i].1 by {
        if i < n {
            assert(offs2[i] == offs[i]);
            assert(entries[i] == block_entries(d, offs)[i]);
            assert(entry_in_bounds(d, offs[i] as int, fk));
            lemma_entry_prefix(d, eb, offs[i] as int, fk);
        } else {
            assert(offs2[i] as int == d.len());
        }
    }
    assert(block_entries(d2, offs2) =~= entries.push((key, value)));
}

proof fn lemma_add_sound(old_b: BlockBuilder, new_b: BlockBuilder, key: Seq<u8>, value: Seq<u8>)
    requires
        old_b.sound(),
        old_b.entries@.len() > 0 || key.len() > 0,
        new_b.data@ == old_b.data@ + entry_bytes(old_b.first_key@, key, value),
        new_b.offsets@ == old_b.offsets@.push(old_b.data@.len() as u16),
        new_b.first_key@ == if old_b.first_key@.len() == 0 { key } else { old_b.first_key@ },
        new_b.entries@ == old_b.entries@.push((key, value)),
        key.len() <= 0xffff,
        value.len() <= 0xffff,
        old_b.entries@.len() > 0 ==> new_b.data@.len() <= 0xffff,
    ensures
        new_b.sound(),
{
    if old_b.offsets@.len() == 0 {
        assert(old_b.data@ + entry_bytes(old_b.first_key@, key, value) =~= entry_bytes(Seq::empty(), key, value));
        assert(new_b.offsets@ =~= seq![0u16]);
        assert(new_b.entries@ =~= seq![(key, value)]);
        lemma_add_first(new_b.data@, new_b.offsets@, new_b.entries@, key, value);
    } else {
        lemma_add_next(old_b.data@, old_b.offsets@, old_b.entries@, old_b.first_key@, key, value);
    }
}

} // verus!
