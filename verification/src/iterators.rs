//! Iterators over sorted key-value entries.

pub mod concat_iterator;
pub mod merge_iterator;
pub mod two_merge_iterator;

use vstd::prelude::*;

verus! {

/// An iterator over key-value entries, positioned at an entry until it runs out.
pub trait StorageIterator {
    /// The iterator's state is consistent.
    spec fn inv(&self) -> bool;

    /// The entries the iterator yields from its current position on.
    spec fn remaining(&self) -> Seq<(Seq<u8>, Seq<u8>)>;

    /// The key of the current entry.
    fn key(&self) -> (k: &[u8])
        requires
            self.inv(),
            self.remaining().len() > 0,
        ensures
            k@ == self.remaining()[0].0,
    ;

    /// The value of the current entry.
    fn value(&self) -> (v: &[u8])
        requires
            self.inv(),
            self.remaining().len() > 0,
        ensures
            v@ == self.remaining()[0].1,
    ;

    /// The iterator is at an entry.
    fn is_valid(&self) -> (r: bool)
        requires
            self.inv(),
        ensures
            r == (self.remaining().len() > 0),
    ;

    /// Moves to the next entry.
    fn next(&mut self)
        requires
            old(self).inv(),
            old(self).remaining().len() > 0,
        ensures
            final(self).inv(),
            final(self).remaining() == old(self).remaining().drop_first(),
    ;

    /// The number of underlying active iterators for this iterator.
    fn num_active_iterators(&self) -> (r: usize)
        ensures
            r == 1,
    {
        1
    }
}

} // verus!
