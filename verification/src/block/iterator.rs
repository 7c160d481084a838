use std::sync::Arc;

use super::{entry_in_bounds, first_key_of, Block};
use crate::codec::{get_u16, read_be16};
use crate::key::{key_le, key_le_exec, lemma_key_le_trans};
use vstd::prelude::*;
use vstd::slice::slice_subrange;

verus! {

/// `p` splits the entries at `target`: the entry before `p` has a key smaller
/// than `target`, and the entry at `p`, if there is one, a key at least `target`.
pub open spec fn seek_boundary(entries: Seq<(Seq<u8>, Seq<u8>)>, target: Seq<u8>, p: int) -> bool {
    &&& 0 <= p <= entries.len()
    &&& p > 0 ==> !key_le(target, entries[p - 1].0)
    &&& p < entries.len() ==> key_le(target, entries[p].0)
}

/// The entries' keys are in non-decreasing order.
pub open spec fn entries_sorted(entries: Seq<(Seq<u8>, Seq<u8>)>) -> bool {
    forall|i: int, j: int| 0 <= i <= j < entries.len() ==> key_le(#[trigger] entries[i].0, #[trigger] entries[j].0)
}

/// Over sorted entries the split point is where the keys at least `target` begin:
/// every entry before it is smaller, every entry from it on is at least `target`.
pub proof fn lemma_seek_boundary_sorted(entries: Seq<(Seq<u8>, Seq<u8>)>, target: Seq<u8>, p: int)
    requires
        entries_sorted(entries),
        seek_boundary(entries, target, p),
    ensures
        forall|i: int| 0 <= i < p ==> !key_le(target, #[trigger] entries[i].0),
        forall|i: int| p <= i < entries.len() ==> key_le(target, #[trigger] entries[i].0),
{
    assert forall|i: int| 0 <= i < p implies !key_le(target, #[trigger] entries[i].0) by {
        if key_le(target, entries[i].0) {
            lemma_key_le_trans(target, entries[i].0, entries[p - 1].0);
        }
    }
    assert forall|i: int| p <= i < entries.len() implies key_le(target, #[trigger] entries[i].0) by {
        lemma_key_le_trans(target, entries[p].0, entries[i].0);
    }
}

/// Over sorted entries there is only one split point for a target.
pub proof fn lemma_seek_boundary_unique(entries: Seq<(Seq<u8>, Seq<u8>)>, target: Seq<u8>, p: int, q: int)
    requires
        entries_sorted(entries),
        seek_boundary(entries, target, p),
        seek_boundary(entries, target, q),
    ensures
        p == q,
{
    lemma_seek_boundary_sorted(entries, target, p);
    lemma_seek_boundary_sorted(entries, target, q);
    if p < q {
        assert(!key_le(target, entries[p].0));
    }
    if q < p {
        assert(!key_le(target, entries[q].0));
    }
}

/// Where the binary search for `target` between `left` and `right` stops: it
/// halves the range, keeping the lower half when the middle key is at least
/// `target`. Over sorted entries this is the split point for `target`.
pub open spec fn block_search(entries: Seq<(Seq<u8>, Seq<u8>)>, target: Seq<u8>, left: int, right: int) -> int
    decreases right - left,
{
    if left < right {
        let mid = left + (right - left) / 2;
        if key_le(target, entries[mid].0) {
            block_search(entries, target, left, mid)
        } else {
            block_search(entries, target, mid + 1, right)
        }
    } else {
        left
    }
}

/// The number of binary digits of `n`: `floor(log2(n)) + 1` for `n >= 1`, and 0
/// for 0. A binary search over `n` entries compares at most this many of them.
pub open spec fn bit_len(n: nat) -> nat
    decreases n,
{
    if n == 0 {
        0
    } else {
        1 + bit_len(n / 2)
    }
}

/// More entries never take fewer digits.
pub proof fn lemma_bit_len_mono(a: nat, b: nat)
    requires
        a <= b,
    ensures
        bit_len(a) <= bit_len(b),
    decreases b,
{
    if a > 0 {
        lemma_bit_len_mono(a / 2, b / 2);
    }
}

/// Appends the bytes of `s` to `v`.
fn append_bytes(v: &mut Vec<u8>, s: &[u8])
    ensures
        final(v)@ == old(v)@ + s@,
{
    let mut i: usize = 0;
    while i < s.len()
        invariant
            i <= s@.len(),
            v@ == old(v)@ + s@.take(i as int),
        decreases s@.len() - i,
    {
        v.push(s[i]);
        i = i + 1;
        proof {
            assert(v@ =~= old(v)@ + s@.take(i as int));
        }
    }
    proof {
        assert(s@.take(s@.len() as int) =~= s@);
    }
}

/// Reads the big-endian `u16` at `off` of `data`.
fn read_u16_at(data: &[u8], off: usize) -> (r: u16)
    requires
        off + 2 <= data.len(),
    ensures
        r == read_be16(data@, off as int),
{
    let r = get_u16(slice_subrange(data, off, off + 2));
    proof {
        let sub = data@.subrange(off as int, off + 2);
        assert(sub[0] == data@[off as int]);
        assert(sub[1] == data@[off + 1]);
    }
    r
}

/// Iterates on a block.
pub struct BlockIterator {
    /// The internal `Block`, wrapped by an `Arc`.
    block: Arc<Block>,
    /// The current key, empty represents the iterator is invalid.
    key: Vec<u8>,
    /// The current value range in `block.data`, corresponds to the current key.
    value_range: (usize, usize),
    /// Current index of the key-value pair, in range of [0, number of entries).
    idx: usize,
    /// The first key in the block.
    first_key: Vec<u8>,
    /// How many entries the last seek to a key compared.
    probes: Ghost<nat>,
}

impl BlockIterator {
    /// The block iterated on.
    pub closed spec fn block_spec(&self) -> Block {
        *self.block
    }

    /// The entries of the block iterated on.
    pub open spec fn entries(&self) -> Seq<(Seq<u8>, Seq<u8>)> {
        self.block_spec().entries()
    }

    /// The index of the current entry.
    pub closed spec fn index(&self) -> int {
        self.idx as int
    }

    /// The index is never negative, and at an entry of the block while valid.
    pub proof fn lemma_index(&self)
        requires
            self.inv(),
        ensures
            self.index() >= 0,
            self.valid_spec() ==> self.index() < self.entries().len(),
    {
    }

    /// How many entries the last seek to a key compared with the target.
    pub closed spec fn probes(&self) -> nat {
        self.probes@
    }

    /// The current key; empty when the iterator is not valid.
    pub closed spec fn cur_key(&self) -> Seq<u8> {
        self.key@
    }

    /// The current value.
    pub closed spec fn cur_value(&self) -> Seq<u8> {
        self.block.data@.subrange(self.value_range.0 as int, self.value_range.1 as int)
    }

    /// The iterator is at an entry.
    pub open spec fn valid_spec(&self) -> bool {
        self.cur_key().len() > 0
    }

    /// The iterator's state agrees with its block.
    pub closed spec fn inv(&self) -> bool {
        let n = self.block.offsets@.len();
        &&& self.block.wf()
        &&& n > 0 ==> self.idx < n && self.first_key@ == first_key_of(self.block.data@)
        &&& self.value_range.0 <= self.value_range.1 <= self.block.data@.len()
        &&& self.key@.len() > 0 ==> {
            &&& self.idx < n
            &&& self.key@ == self.entries()[self.idx as int].0
            &&& self.cur_value() == self.entries()[self.idx as int].1
        }
    }

    fn new(block: Arc<Block>) -> (it: Self)
        requires
            block.wf(),
        ensures
            it.block_spec() == *block,
            it.index() == 0,
            it.cur_key().len() == 0,
            it.cur_value().len() == 0,
            it.value_range == (0usize, 0usize),
            it.probes() == 0,
            block.offsets@.len() == 0 ==> it.inv(),
    {
        Self { block, key: Vec::new(), value_range: (0, 0), idx: 0, first_key: Vec::new(), probes: Ghost(0) }
    }

    /// Creates a block iterator and seeks to the first entry.
    pub fn create_and_seek_to_first(block: Arc<Block>) -> (it: Self)
        requires
            block.wf(),
        ensures
            it.inv(),
            it.block_spec() == *block,
            block.offsets@.len() == 0 ==> it.cur_key().len() == 0 && it.index() == 0,
            block.offsets@.len() > 0 ==> {
                &&& it.index() == 0
                &&& it.cur_key() == it.entries()[0].0
                &&& it.cur_value() == it.entries()[0].1
            },
    {
        if block.offsets.len() == 0 {
            return Self::new(block);
        }
        let mut iter = Self::new(block);
        iter.set_first_key();
        iter.seek_to_first();
        iter
    }

    /// Creates a block iterator and seeks to the first key that is `>= key`.
    pub fn create_and_seek_to_key(block: Arc<Block>, key: &[u8]) -> (it: Self)
        requires
            block.wf(),
        ensures
            it.inv(),
            it.block_spec() == *block,
            Self::seeked(it.entries(), key@, 0, it),
            Self::searched(it.entries(), key@, it),
            it.entries().len() == 0 ==> !it.valid_spec(),
            it.probes() <= bit_len(it.entries().len()),
    {
        if block.offsets.len() == 0 {
            let it = Self::new(block);
            proof {
                assert(seek_boundary(it.entries(), key@, 0));
            }
            return it;
        }
        let mut iter = Self::new(block);
        iter.set_first_key();
        iter.seek_to_key(key);
        iter
    }

    /// What a seek to `target` leaves: at the split point when it has an entry,
    /// else cleared at the index it had before (`old_index`).
    pub open spec fn seeked(entries: Seq<(Seq<u8>, Seq<u8>)>, target: Seq<u8>, old_index: int, it: Self) -> bool {
        ||| {
            &&& seek_boundary(entries, target, entries.len() as int)
            &&& it.cur_key().len() == 0
            &&& it.index() == old_index
        }
        ||| {
            &&& it.index() < entries.len()
            &&& seek_boundary(entries, target, it.index())
            &&& it.cur_key() == entries[it.index()].0
            &&& it.cur_value() == entries[it.index()].1
        }
    }

    /// Where the binary search for `target` leaves the iterator: at the entry it
    /// stops at, or cleared when it stops past the last entry.
    pub open spec fn searched(entries: Seq<(Seq<u8>, Seq<u8>)>, target: Seq<u8>, it: Self) -> bool {
        let q = block_search(entries, target, 0, entries.len() as int);
        &&& q < entries.len() ==> {
            &&& it.index() == q
            &&& it.cur_key() == entries[q].0
            &&& it.cur_value() == entries[q].1
        }
        &&& q >= entries.len() ==> it.cur_key().len() == 0
    }

    /// Returns the key of the current entry.
    pub fn key(&self) -> (k: &[u8])
        ensures
            k@ == self.cur_key(),
    {
        self.key.as_slice()
    }

    /// Returns the value of the current entry.
    pub fn value(&self) -> (v: &[u8])
        requires
            self.inv(),
        ensures
            v@ == self.cur_value(),
    {
        let (val_start, val_end) = self.value_range;
        slice_subrange(self.block.data.as_slice(), val_start, val_end)
    }

    /// Returns true if the iterator is valid.
    pub fn is_valid(&self) -> (r: bool)
        ensures
            r == self.valid_spec(),
    {
        self.key.len() != 0
    }

    /// Seeks to the first key in the block. The block must have an entry.
    pub fn seek_to_first(&mut self)
        requires
            old(self).inv(),
            old(self).block_spec().offsets@.len() > 0,
        ensures
            final(self).inv(),
            final(self).block_spec() == old(self).block_spec(),
            final(self).index() == 0,
            final(self).cur_key() == final(self).entries()[0].0,
            final(self).cur_value() == final(self).entries()[0].1,
    {
        self.set_to_ith_key(0);
    }

    /// Moves to the next key in the block; past the last entry the iterator
    /// becomes invalid and keeps its index.
    pub fn next(&mut self)
        requires
            old(self).inv(),
        ensures
            final(self).inv(),
            final(self).block_spec() == old(self).block_spec(),
            old(self).index() + 1 >= old(self).entries().len() ==> {
                &&& final(self).cur_key().len() == 0
                &&& final(self).index() == old(self).index()
                &&& final(self).cur_value() == old(self).cur_value()
            },
            old(self).index() + 1 < old(self).entries().len() ==> {
                &&& final(self).index() == old(self).index() + 1
                &&& final(self).cur_key() == final(self).entries()[final(self).index()].0
                &&& final(self).cur_value() == final(self).entries()[final(self).index()].1
            },
    {
        if self.is_end_of_block() {
            self.key = Vec::new();
            return;
        }
        let n = self.block.offsets.len();
        assert(self.idx + 1 < n);
        let i = self.idx + 1;
        self.set_to_ith_key(i);
    }

    /// Seeks to the first key that is `>= key`, by binary search over the entries
    /// (sorted, as the builder's callers add them). It compares at most
    /// `floor(log2(n)) + 1` of the `n` entries; on an empty block the iterator
    /// ends up invalid.
    pub fn seek_to_key(&mut self, key: &[u8])
        requires
            old(self).inv(),
        ensures
            final(self).inv(),
            final(self).block_spec() == old(self).block_spec(),
            Self::seeked(old(self).entries(), key@, old(self).index(), *final(self)),
            Self::searched(old(self).entries(), key@, *final(self)),
            old(self).entries().len() == 0 ==> !final(self).valid_spec(),
            final(self).probes() <= bit_len(old(self).entries().len()),
    {
        let n = self.block.offsets.len();
        let mut left: usize = 0;
        let mut right: usize = n;
        let ghost mut count: nat = 0;
        while left < right
            invariant
                self.inv(),
                n == self.block.offsets@.len(),
                left <= right <= n,
                left > 0 ==> !key_le(key@, self.entries()[left - 1].0),
                right < n ==> key_le(key@, self.entries()[right as int].0),
                count + bit_len((right - left) as nat) <= bit_len(n as nat),
                block_search(self.entries(), key@, left as int, right as int) == block_search(self.entries(), key@, 0, n as int),
            decreases right - left,
        {
            let mid = left + (right - left) / 2;
            let ghost w: nat = (right - left) as nat;
            if self.check_ge_at(mid, key) {
                right = mid;
            } else {
                left = mid + 1;
            }
            proof {
                lemma_bit_len_mono((right - left) as nat, w / 2);
                count = count + 1;
            }
        }
        self.probes = Ghost(count);
        if left >= n {
            self.key = Vec::new();
            return;
        }
        self.set_to_ith_key(left);
    }

    /// The iterator is at the block's last entry (or past it).
    fn is_end_of_block(&self) -> (r: bool)
        requires
            self.inv(),
        ensures
            r == (self.index() + 1 >= self.entries().len()),
            r == (self.idx + 1 >= self.block_spec().offsets@.len()),
    {
        self.idx >= self.block.offsets.len() || self.block.offsets.len() - self.idx <= 1
    }

    /// Decodes the key of the `idx`-th entry.
    fn key_at(&self, idx: usize) -> (k: Vec<u8>)
        requires
            self.inv(),
            idx < self.block_spec().offsets@.len(),
        ensures
            k@ == self.entries()[idx as int].0,
    {
        let data = self.block.data.as_slice();
        let off = self.block.offsets[idx] as usize;
        proof {
            assert(entry_in_bounds(self.block.data@, self.block.offsets@[idx as int] as int, first_key_of(self.block.data@)));
        }
        let overlap = read_u16_at(data, off) as usize;
        let rest_len = read_u16_at(data, off + 2) as usize;
        let mut k: Vec<u8> = Vec::new();
        append_bytes(&mut k, slice_subrange(self.first_key.as_slice(), 0, overlap));
        append_bytes(&mut k, slice_subrange(data, off + 4, off + 4 + rest_len));
        proof {
            assert(k@ =~= self.entries()[idx as int].0);
        }
        k
    }

    /// Returns true if the `idx`-th key is `>= key`.
    fn check_ge_at(&self, idx: usize, key: &[u8]) -> (r: bool)
        requires
            self.inv(),
            idx < self.block_spec().offsets@.len(),
        ensures
            r == key_le(key@, self.entries()[idx as int].0),
    {
        let k = self.key_at(idx);
        key_le_exec(key, k.as_slice())
    }

    /// Sets the iterator at the `i`-th entry.
    fn set_to_ith_key(&mut self, i: usize)
        requires
            old(self).inv(),
            i < old(self).block_spec().offsets@.len(),
        ensures
            final(self).inv(),
            final(self).block_spec() == old(self).block_spec(),
            final(self).index() == i,
            final(self).cur_key() == final(self).entries()[i as int].0,
            final(self).cur_value() == final(self).entries()[i as int].1,
            final(self).probes() == old(self).probes(),
    {
        let k = self.key_at(i);
        let data = self.block.data.as_slice();
        let off = self.block.offsets[i] as usize;
        proof {
            assert(entry_in_bounds(self.block.data@, self.block.offsets@[i as int] as int, first_key_of(self.block.data@)));
        }
        let rest_len = read_u16_at(data, off + 2) as usize;
        let val_len = read_u16_at(data, off + 4 + rest_len) as usize;
        let val_start = off + 6 + rest_len;
        self.key = k;
        self.value_range = (val_start, val_start + val_len);
        self.idx = i;
    }

    /// Sets the first key field from the start of the data.
    fn set_first_key(&mut self)
        requires
            old(self).block_spec().wf(),
            old(self).block_spec().offsets@.len() > 0,
            old(self).cur_key().len() == 0,
            old(self).index() == 0,
            old(self).value_range.0 <= old(self).value_range.1 <= old(self).block_spec().data@.len(),
        ensures
            final(self).inv(),
            final(self).block_spec() == old(self).block_spec(),
            final(self).index() == 0,
            final(self).cur_key().len() == 0,
            final(self).cur_value() == old(self).cur_value(),
            final(self).probes() == old(self).probes(),
    {
        let data = self.block.data.as_slice();
        let key_len = read_u16_at(data, 2) as usize;
        let mut fk: Vec<u8> = Vec::new();
        append_bytes(&mut fk, slice_subrange(data, 4, 4 + key_len));
        self.first_key = fk;
    }
}

} // verus!
