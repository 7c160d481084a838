//! Blocks: the smallest unit of reading and caching, a collection of sorted
//! key-value entries together with the offsets of the entries.
//!
//! Entry layout: `overlap (u16) | rest_len (u16) | rest of key | value_len (u16) | value`,
//! where the key is the first `overlap` bytes of the block's first key followed by
//! the rest. Encoded block: `data | offsets (u16 each) | number of entries (u16)`,
//! all integers big-endian.

mod builder;
pub mod iterator;

pub use builder::{block_full, entry_bytes, BlockBuilder};
pub use iterator::BlockIterator;

use crate::codec::{be16, bytes_contents, bytes_copy_from_slice, bytes_from_vec, bytes_into_vec, lemma_read_be16_at, put_slice, put_u16, read_be16};
use vstd::prelude::*;
use vstd::slice::slice_subrange;

verus! {

/// A block: the entries' bytes and the offset of each entry in them.
pub struct Block {
    pub data: Vec<u8>,
    pub offsets: Vec<u16>,
}

/// The big-endian bytes of a sequence of offsets.
pub open spec fn offsets_bytes(offs: Seq<u16>) -> Seq<u8>
    decreases offs.len(),
{
    if offs.len() == 0 {
        Seq::empty()
    } else {
        offsets_bytes(offs.drop_last()) + be16(offs.last())
    }
}

/// The encoding of a block with the given data and offsets.
pub open spec fn encode_spec(data: Seq<u8>, offs: Seq<u16>) -> Seq<u8> {
    data + offsets_bytes(offs) + be16(offs.len() as u16)
}

/// The number of entries that an encoded block declares in its last two bytes.
pub open spec fn decoded_count(s: Seq<u8>) -> int {
    read_be16(s, s.len() - 2) as int
}

/// Where the offsets section of an encoded block starts.
pub open spec fn decoded_offsets_start(s: Seq<u8>) -> int {
    s.len() - 2 - 2 * decoded_count(s)
}

/// An encoded block can be decoded: it holds the count and the offsets it declares.
pub open spec fn decodable(s: Seq<u8>) -> bool {
    &&& s.len() >= 2
    &&& decoded_offsets_start(s) >= 0
}

/// The data section of an encoded block.
pub open spec fn decoded_data(s: Seq<u8>) -> Seq<u8> {
    s.subrange(0, decoded_offsets_start(s))
}

/// The offsets of an encoded block.
pub open spec fn decoded_offsets(s: Seq<u8>) -> Seq<u16> {
    Seq::new(
        decoded_count(s) as nat,
        |i: int| read_be16(s, decoded_offsets_start(s) + 2 * i),
    )
}

/// The key of the first entry, stored whole at the start of the data.
pub open spec fn first_key_of(data: Seq<u8>) -> Seq<u8> {
    data.subrange(4, 4 + read_be16(data, 2))
}

/// The overlap field of the entry at `off`.
pub open spec fn entry_overlap(data: Seq<u8>, off: int) -> int {
    read_be16(data, off) as int
}

/// The length of the stored rest of the key of the entry at `off`.
pub open spec fn entry_rest_len(data: Seq<u8>, off: int) -> int {
    read_be16(data, off + 2) as int
}

/// The length of the value of the entry at `off`.
pub open spec fn entry_value_len(data: Seq<u8>, off: int) -> int {
    read_be16(data, off + 4 + entry_rest_len(data, off)) as int
}

/// Where the value of the entry at `off` starts.
pub open spec fn entry_value_start(data: Seq<u8>, off: int) -> int {
    off + 6 + entry_rest_len(data, off)
}

/// The entry at `off` lies within the data and its overlap within the first key.
pub open spec fn entry_in_bounds(data: Seq<u8>, off: int, first_key: Seq<u8>) -> bool {
    &&& 0 <= off
    &&& off + 4 <= data.len()
    &&& off + 6 + entry_rest_len(data, off) <= data.len()
    &&& entry_value_start(data, off) + entry_value_len(data, off) <= data.len()
    &&& entry_overlap(data, off) <= first_key.len()
}

/// The key of the entry at `off`.
pub open spec fn entry_key(data: Seq<u8>, off: int, first_key: Seq<u8>) -> Seq<u8> {
    first_key.take(entry_overlap(data, off)) + data.subrange(off + 4, off + 4 + entry_rest_len(data, off))
}

/// The value of the entry at `off`.
pub open spec fn entry_value(data: Seq<u8>, off: int) -> Seq<u8> {
    data.subrange(entry_value_start(data, off), entry_value_start(data, off) + entry_value_len(data, off))
}

/// Every entry of the block can be read.
pub open spec fn block_wf(data: Seq<u8>, offs: Seq<u16>) -> bool {
    &&& offs.len() > 0 ==> data.len() >= 4 && 4 + read_be16(data, 2) <= data.len()
    &&& forall|i: int| 0 <= i < offs.len() ==> entry_in_bounds(data, #[trigger] offs[i] as int, first_key_of(data))
}

/// The key-value entries of a block, in order.
pub open spec fn block_entries(data: Seq<u8>, offs: Seq<u16>) -> Seq<(Seq<u8>, Seq<u8>)> {
    Seq::new(
        offs.len(),
        |i: int| (entry_key(data, offs[i] as int, first_key_of(data)), entry_value(data, offs[i] as int)),
    )
}

impl Block {
    /// Every entry of the block can be read.
    pub open spec fn wf(&self) -> bool {
        block_wf(self.data@, self.offsets@)
    }

    /// The key-value entries of the block, in order.
    pub open spec fn entries(&self) -> Seq<(Seq<u8>, Seq<u8>)> {
        block_entries(self.data@, self.offsets@)
    }

    /// Encodes the block: the data, each offset, then the number of entries.
    pub fn encode(&self) -> (b: bytes::Bytes)
        ensures
            bytes_contents(b) == encode_spec(self.data@, self.offsets@),
    {
        let mut buf: Vec<u8> = Vec::new();
        put_slice(&mut buf, self.data.as_slice());
        let n = self.offsets.len();
        let mut i: usize = 0;
        while i < n
            invariant
                n == self.offsets@.len(),
                i <= n,
                buf@ == self.data@ + offsets_bytes(self.offsets@.take(i as int)),
            decreases n - i,
        {
            proof {
                assert(self.offsets@.take(i as int + 1).drop_last() =~= self.offsets@.take(i as int));
            }
            put_u16(&mut buf, self.offsets[i]);
            i = i + 1;
            proof {
                assert(buf@ =~= self.data@ + offsets_bytes(self.offsets@.take(i as int)));
            }
        }
        proof {
            assert(self.offsets@.take(n as int) =~= self.offsets@);
        }
        put_u16(&mut buf, n as u16);
        proof {
            assert(buf@ =~= encode_spec(self.data@, self.offsets@));
        }
        bytes_from_vec(buf)
    }

    /// Decodes a block from its encoding. A buffer too short for the count and
    /// the offsets it declares is not a block (the read would fall outside it).
    pub fn decode(data: &[u8]) -> (b: Block)
        requires
            decodable(data@),
        ensures
            b.data@ == decoded_data(data@),
            b.offsets@ == decoded_offsets(data@),
    {
        let len = data.len();
        let num: usize = ((data[len - 2] as u16) * 256 + (data[len - 1] as u16)) as usize;
        let offset_end = len - 2;
        let offset_start = offset_end - num * 2;
        let mut offsets: Vec<u16> = Vec::new();
        let mut i: usize = 0;
        while i < num
            invariant
                len == data@.len(),
                num == decoded_count(data@),
                offset_start == decoded_offsets_start(data@),
                offset_start + 2 * num + 2 == len,
                i <= num,
                offsets@ =~= decoded_offsets(data@).take(i as int),
            decreases num - i,
        {
            let p = offset_start + 2 * i;
            let v: u16 = (data[p] as u16) * 256 + (data[p + 1] as u16);
            offsets.push(v);
            i = i + 1;
        }
        let head = bytes_copy_from_slice(slice_subrange(data, 0, offset_start));
        let block_data = bytes_into_vec(head);
        Block { data: block_data, offsets }
    }
}

/// Reads the big-endian `u16` at `off` of `data`.
fn read_u16(data: &[u8], off: usize) -> (r: u16)
    requires
        off + 2 <= data@.len(),
    ensures
        r == read_be16(data@, off as int),
{
    (data[off] as u16) * 256 + (data[off + 1] as u16)
}

impl Block {
    /// Decides whether every entry of the block can be read: each lies within
    /// the data, and its overlap within the first key.
    pub fn check_wf(&self) -> (r: bool)
        ensures
            r == self.wf(),
    {
        let data = self.data.as_slice();
        let len = data.len();
        let n = self.offsets.len();
        if n == 0 {
            return true;
        }
        if len < 4 {
            return false;
        }
        let fk_len = read_u16(data, 2) as usize;
        if 4 + fk_len > len {
            return false;
        }
        let ghost fk = first_key_of(data@);
        assert(fk.len() == fk_len);
        let mut i: usize = 0;
        while i < n
            invariant
                n == self.offsets@.len(),
                len == data@.len(),
                data@ == self.data@,
                fk == first_key_of(data@),
                fk.len() == fk_len,
                i <= n,
                forall|j: int| 0 <= j < i ==> entry_in_bounds(data@, #[trigger] self.offsets@[j] as int, fk),
            decreases n - i,
        {
            let off = self.offsets[i] as usize;
            if off + 4 > len {
                return false;
            }
            let overlap = read_u16(data, off) as usize;
            let rest_len = read_u16(data, off + 2) as usize;
            if off + 6 + rest_len > len {
                return false;
            }
            let value_len = read_u16(data, off + 4 + rest_len) as usize;
            if off + 6 + rest_len + value_len > len || overlap > fk_len {
                return false;
            }
            assert(entry_in_bounds(data@, self.offsets@[i as int] as int, fk));
            i = i + 1;
        }
        true
    }
}

pub proof fn lemma_offsets_bytes_len(offs: Seq<u16>)
    ensures
        offsets_bytes(offs).len() == 2 * offs.len(),
    decreases offs.len(),
{
    if offs.len() > 0 {
        lemma_offsets_bytes_len(offs.drop_last());
    }
}

proof fn lemma_offsets_bytes_read(offs: Seq<u16>, i: int)
    requires
        0 <= i < offs.len(),
    ensures
        read_be16(offsets_bytes(offs), 2 * i) == offs[i],
    decreases offs.len(),
{
    lemma_offsets_bytes_len(offs.drop_last());
    if i == offs.len() - 1 {
        assert(offsets_bytes(offs).subrange(2 * i, 2 * i + 2) =~= be16(offs[i]));
        lemma_read_be16_at(offsets_bytes(offs), 2 * i, offs[i]);
    } else {
        lemma_offsets_bytes_read(offs.drop_last(), i);
        let a = offsets_bytes(offs.drop_last());
        assert(offsets_bytes(offs)[2 * i] == a[2 * i]);
        assert(offsets_bytes(offs)[2 * i + 1] == a[2 * i + 1]);
    }
}

/// Decoding an encoded block gives the block back, when its number of entries
/// fits the two-byte count.
pub proof fn lemma_decode_encode(data: Seq<u8>, offs: Seq<u16>)
    requires
        offs.len() <= 0xffff,
    ensures
        decodable(encode_spec(data, offs)),
        decoded_data(encode_spec(data, offs)) == data,
        decoded_offsets(encode_spec(data, offs)) == offs,
{
    let s = encode_spec(data, offs);
    lemma_offsets_bytes_len(offs);
    let ob = offsets_bytes(offs);
    assert(s.subrange(s.len() - 2, s.len() as int) =~= be16(offs.len() as u16));
    lemma_read_be16_at(s, s.len() - 2, offs.len() as u16);
    assert(decoded_count(s) == offs.len());
    assert(decoded_offsets_start(s) == data.len());
    assert(decoded_data(s) =~= data);
    assert forall|i: int| 0 <= i < offs.len() implies read_be16(s, data.len() + 2 * i) == offs[i] by {
        lemma_offsets_bytes_read(offs, i);
        assert(s[data.len() + 2 * i] == ob[2 * i]);
        assert(s[data.len() + 2 * i + 1] == ob[2 * i + 1]);
    }
    assert(decoded_offsets(s) =~= offs);
}

} // verus!
