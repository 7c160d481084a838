use crate::iterators::StorageIterator;
use crate::key::{
    entries_strictly_sorted, key_eq_exec, key_le, key_le_exec, key_lt, lemma_key_le_antisym, lemma_key_le_refl, lemma_key_lt_trans,
    lemma_lookup_below_first, lemma_sorted_cons, lemma_sorted_drop_first, lookup,
};
use vstd::prelude::*;

verus! {

/// Whether the merge takes the next entry from `a`: `a` has one, and `b` has
/// none or its next key is not smaller.
pub open spec fn take_a(ra: Seq<(Seq<u8>, Seq<u8>)>, rb: Seq<(Seq<u8>, Seq<u8>)>) -> bool {
    &&& ra.len() > 0
    &&& rb.len() > 0 ==> key_le(ra[0].0, rb[0].0)
}

/// The entries that merging `ra` and `rb` yields: the smaller next key first;
/// on equal keys the entry of `a`, and the entry of `b` is skipped.
pub open spec fn merge_entries(ra: Seq<(Seq<u8>, Seq<u8>)>, rb: Seq<(Seq<u8>, Seq<u8>)>) -> Seq<(Seq<u8>, Seq<u8>)>
    decreases ra.len() + rb.len(),
{
    if ra.len() == 0 && rb.len() == 0 {
        Seq::empty()
    } else if take_a(ra, rb) {
        let rb2 = if rb.len() > 0 && rb[0].0 == ra[0].0 { rb.drop_first() } else { rb };
        seq![ra[0]] + merge_entries(ra.drop_first(), rb2)
    } else {
        seq![rb[0]] + merge_entries(ra, rb.drop_first())
    }
}

/// `rb` without its first entry when that entry has the same key as `ra`'s first.
pub open spec fn skip_same_head(ra: Seq<(Seq<u8>, Seq<u8>)>, rb: Seq<(Seq<u8>, Seq<u8>)>) -> Seq<(Seq<u8>, Seq<u8>)> {
    if ra.len() > 0 && rb.len() > 0 && ra[0].0 == rb[0].0 { rb.drop_first() } else { rb }
}

/// Every entry of the merge is an entry of `ra` or of `rb`: a property that holds
/// of all their entries holds of all entries of the merge.
pub proof fn lemma_merge_entries_keeps(ra: Seq<(Seq<u8>, Seq<u8>)>, rb: Seq<(Seq<u8>, Seq<u8>)>, p: spec_fn((Seq<u8>, Seq<u8>)) -> bool)
    requires
        forall|j: int| 0 <= j < ra.len() ==> p(#[trigger] ra[j]),
        forall|j: int| 0 <= j < rb.len() ==> p(#[trigger] rb[j]),
    ensures
        forall|k: int| 0 <= k < merge_entries(ra, rb).len() ==> p(#[trigger] merge_entries(ra, rb)[k]),
    decreases ra.len() + rb.len(),
{
    let out = merge_entries(ra, rb);
    if ra.len() == 0 && rb.len() == 0 {
    } else if take_a(ra, rb) {
        let rb2 = if rb.len() > 0 && rb[0].0 == ra[0].0 { rb.drop_first() } else { rb };
        assert forall|j: int| 0 <= j < ra.drop_first().len() implies p(#[trigger] ra.drop_first()[j]) by {
            assert(ra.drop_first()[j] == ra[j + 1]);
        }
        assert forall|j: int| 0 <= j < rb2.len() implies p(#[trigger] rb2[j]) by {
            if rb.len() > 0 && rb[0].0 == ra[0].0 {
                assert(rb2[j] == rb[j + 1]);
            }
        }
        lemma_merge_entries_keeps(ra.drop_first(), rb2, p);
        assert(p(ra[0]));
        assert forall|x: int| 0 <= x < out.len() implies p(#[trigger] out[x]) by {
            if x > 0 {
                assert(out[x] == merge_entries(ra.drop_first(), rb2)[x - 1]);
            }
        }
    } else {
        assert forall|j: int| 0 <= j < rb.drop_first().len() implies p(#[trigger] rb.drop_first()[j]) by {
            assert(rb.drop_first()[j] == rb[j + 1]);
        }
        lemma_merge_entries_keeps(ra, rb.drop_first(), p);
        assert(p(rb[0]));
        assert forall|x: int| 0 <= x < out.len() implies p(#[trigger] out[x]) by {
            if x > 0 {
                assert(out[x] == merge_entries(ra, rb.drop_first())[x - 1]);
            }
        }
    }
}

/// Merging entries with strictly increasing keys gives entries with strictly
/// increasing keys.
pub proof fn lemma_merge_entries_sorted(ra: Seq<(Seq<u8>, Seq<u8>)>, rb: Seq<(Seq<u8>, Seq<u8>)>)
    requires
        entries_strictly_sorted(ra),
        entries_strictly_sorted(rb),
    ensures
        entries_strictly_sorted(merge_entries(ra, rb)),
    decreases ra.len() + rb.len(),
{
    if ra.len() == 0 && rb.len() == 0 {
    } else if take_a(ra, rb) {
        let x = ra[0];
        let ra2 = ra.drop_first();
        let same = rb.len() > 0 && rb[0].0 == x.0;
        let rb2 = if same { rb.drop_first() } else { rb };
        lemma_sorted_drop_first(ra);
        if same {
            lemma_sorted_drop_first(rb);
        }
        lemma_merge_entries_sorted(ra2, rb2);
        let p = |e: (Seq<u8>, Seq<u8>)| key_lt(x.0, e.0);
        assert forall|j: int| 0 <= j < ra2.len() implies p(#[trigger] ra2[j]) by {
            assert(ra2[j] == ra[j + 1]);
        }
        if rb.len() > 0 && !same {
            if key_le(rb[0].0, x.0) {
                lemma_key_le_antisym(rb[0].0, x.0);
            }
        }
        assert forall|j: int| 0 <= j < rb2.len() implies p(#[trigger] rb2[j]) by {
            if same {
                assert(rb2[j] == rb[j + 1]);
                assert(key_lt(rb[0].0, rb[j + 1].0));
            } else if j > 0 {
                assert(key_lt(rb[0].0, rb[j].0));
                lemma_key_lt_trans(x.0, rb[0].0, rb[j].0);
            }
        }
        lemma_merge_entries_keeps(ra2, rb2, p);
        let rest = merge_entries(ra2, rb2);
        assert forall|i: int| 0 <= i < rest.len() implies key_lt(x.0, #[trigger] rest[i].0) by {
            assert(p(rest[i]));
        }
        lemma_sorted_cons(x, rest);
    } else {
        let x = rb[0];
        let rb2 = rb.drop_first();
        lemma_sorted_drop_first(rb);
        lemma_merge_entries_sorted(ra, rb2);
        let p = |e: (Seq<u8>, Seq<u8>)| key_lt(x.0, e.0);
        assert forall|j: int| 0 <= j < ra.len() implies p(#[trigger] ra[j]) by {
            if j > 0 {
                assert(key_lt(ra[0].0, ra[j].0));
                lemma_key_lt_trans(x.0, ra[0].0, ra[j].0);
            }
        }
        assert forall|j: int| 0 <= j < rb2.len() implies p(#[trigger] rb2[j]) by {
            assert(rb2[j] == rb[j + 1]);
        }
        lemma_merge_entries_keeps(ra, rb2, p);
        let rest = merge_entries(ra, rb2);
        assert forall|i: int| 0 <= i < rest.len() implies key_lt(x.0, #[trigger] rest[i].0) by {
            assert(p(rest[i]));
        }
        lemma_sorted_cons(x, rest);
    }
}

/// A key's value in the merge of entries with strictly increasing keys is its
/// value in `ra` when `ra` holds the key, else its value in `rb`.
pub proof fn lemma_merge_entries_lookup(ra: Seq<(Seq<u8>, Seq<u8>)>, rb: Seq<(Seq<u8>, Seq<u8>)>, k: Seq<u8>)
    requires
        entries_strictly_sorted(ra),
        entries_strictly_sorted(rb),
    ensures
        lookup(merge_entries(ra, rb), k) == if lookup(ra, k) is Some { lookup(ra, k) } else { lookup(rb, k) },
    decreases ra.len() + rb.len(),
{
    let out = merge_entries(ra, rb);
    if ra.len() == 0 && rb.len() == 0 {
    } else if take_a(ra, rb) {
        let x = ra[0];
        let ra2 = ra.drop_first();
        let same = rb.len() > 0 && rb[0].0 == x.0;
        let rb2 = if same { rb.drop_first() } else { rb };
        assert(out == seq![x] + merge_entries(ra2, rb2));
        if x.0 != k {
            lemma_sorted_drop_first(ra);
            if same {
                lemma_sorted_drop_first(rb);
            }
            lemma_merge_entries_lookup(ra2, rb2, k);
            assert(out.drop_first() =~= merge_entries(ra2, rb2));
        }
    } else {
        let x = rb[0];
        let rb2 = rb.drop_first();
        assert(out == seq![x] + merge_entries(ra, rb2));
        if x.0 == k {
            if ra.len() > 0 {
                lemma_lookup_below_first(ra, k);
            }
        } else {
            lemma_sorted_drop_first(rb);
            lemma_merge_entries_lookup(ra, rb2, k);
            assert(out.drop_first() =~= merge_entries(ra, rb2));
        }
    }
}

/// What a merge iterator over two iterators yields, when each yields entries with
/// strictly increasing keys: entries with strictly increasing keys, each key
/// once, with its value from the first iterator when that one holds the key,
/// else from the second.
pub proof fn lemma_two_merge_yields(ra: Seq<(Seq<u8>, Seq<u8>)>, rb: Seq<(Seq<u8>, Seq<u8>)>, k: Seq<u8>)
    requires
        entries_strictly_sorted(ra),
        entries_strictly_sorted(rb),
    ensures
        entries_strictly_sorted(merge_entries(ra, skip_same_head(ra, rb))),
        lookup(merge_entries(ra, skip_same_head(ra, rb)), k) == if lookup(ra, k) is Some { lookup(ra, k) } else { lookup(rb, k) },
{
    let rb2 = skip_same_head(ra, rb);
    if ra.len() > 0 && rb.len() > 0 && ra[0].0 == rb[0].0 {
        lemma_sorted_drop_first(rb);
    }
    lemma_merge_entries_sorted(ra, rb2);
    lemma_merge_entries_lookup(ra, rb2, k);
}

/// Merges two iterators of different types into one. If the two iterators have
/// the same key, the key is produced once, with the entry from A.
pub struct TwoMergeIterator<A: StorageIterator, B: StorageIterator> {
    a: A,
    b: B,
    /// The next entry comes from `a`.
    use_a: bool,
}

impl<A: StorageIterator, B: StorageIterator> TwoMergeIterator<A, B> {
    /// Creates the merge of `a` and `b`; when both start at the same key, `b`
    /// moves past it.
    pub fn create(a: A, b: B) -> (it: Self)
        requires
            a.inv(),
            b.inv(),
        ensures
            it.inv(),
            it.remaining() == merge_entries(a.remaining(), skip_same_head(a.remaining(), b.remaining())),
    {
        let mut b = b;
        if a.is_valid() && b.is_valid() && key_eq_exec(a.key(), b.key()) {
            b.next();
        }
        let use_a = Self::choose_a(&a, &b);
        Self { a, b, use_a }
    }

    fn choose_a(a: &A, b: &B) -> (r: bool)
        requires
            a.inv(),
            b.inv(),
        ensures
            r == take_a(a.remaining(), b.remaining()),
    {
        let va = a.is_valid();
        let vb = b.is_valid();
        if va && vb {
            key_le_exec(a.key(), b.key())
        } else if va {
            true
        } else {
            false
        }
    }
}

impl<A: StorageIterator, B: StorageIterator> StorageIterator for TwoMergeIterator<A, B> {
    closed spec fn inv(&self) -> bool {
        &&& self.a.inv()
        &&& self.b.inv()
        &&& self.use_a == take_a(self.a.remaining(), self.b.remaining())
    }

    closed spec fn remaining(&self) -> Seq<(Seq<u8>, Seq<u8>)> {
        merge_entries(self.a.remaining(), self.b.remaining())
    }

    fn key(&self) -> (k: &[u8]) {
        if self.use_a {
            self.a.key()
        } else {
            self.b.key()
        }
    }

    fn value(&self) -> (v: &[u8]) {
        if self.use_a {
            self.a.value()
        } else {
            self.b.value()
        }
    }

    fn is_valid(&self) -> (r: bool) {
        self.a.is_valid() || self.b.is_valid()
    }

    fn next(&mut self) {
        let ghost ra = self.a.remaining();
        let ghost rb = self.b.remaining();
        if self.use_a {
            let skip_b = self.a.is_valid() && self.b.is_valid() && key_eq_exec(self.a.key(), self.b.key());
            self.a.next();
            if skip_b {
                self.b.next();
            }
        } else {
            let skip_a = self.a.is_valid() && self.b.is_valid() && key_eq_exec(self.a.key(), self.b.key());
            proof {
                if skip_a {
                    lemma_key_le_refl(ra[0].0);
                }
            }
            self.b.next();
            if skip_a {
                self.a.next();
            }
        }
        self.use_a = Self::choose_a(&self.a, &self.b);
    }
}

} // verus!
