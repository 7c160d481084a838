use crate::iterators::StorageIterator;
use crate::key::{
    entries_strictly_sorted, key_eq_exec, key_le, key_lt, key_lt_exec, lemma_key_le_antisym, lemma_key_le_refl,
    lemma_key_lt_le, lemma_key_lt_le_trans, lemma_key_lt_trans, lemma_lookup_below_first, lemma_sorted_cons, lemma_sorted_drop_first,
    lookup,
};
use vstd::prelude::*;
use vstd::slice::slice_to_vec;

verus! {

/// The number of entries of all the sequences together.
pub open spec fn total_len(rs: Seq<Seq<(Seq<u8>, Seq<u8>)>>) -> nat
    decreases rs.len(),
{
    if rs.len() == 0 {
        0
    } else {
        total_len(rs.drop_last()) + rs.last().len()
    }
}

/// The index, from `i` on, of the sequence with the smallest next key (the
/// first such on ties), starting from the best one so far.
pub open spec fn min_index_from(rs: Seq<Seq<(Seq<u8>, Seq<u8>)>>, i: int, best: Option<int>) -> Option<int>
    decreases rs.len() - i,
{
    if i < 0 || i >= rs.len() {
        best
    } else {
        let better = rs[i].len() > 0 && match best {
            None => true,
            Some(b) => key_lt(rs[i][0].0, rs[b][0].0),
        };
        min_index_from(rs, i + 1, if better { Some(i) } else { best })
    }
}

/// The index of the sequence with the smallest next key, the first on ties.
pub open spec fn min_index(rs: Seq<Seq<(Seq<u8>, Seq<u8>)>>) -> Option<int> {
    min_index_from(rs, 0, None)
}

/// Every sequence whose next key is `k` moves past it.
pub open spec fn advance_eq(rs: Seq<Seq<(Seq<u8>, Seq<u8>)>>, k: Seq<u8>) -> Seq<Seq<(Seq<u8>, Seq<u8>)>> {
    Seq::new(rs.len(), |j: int| if rs[j].len() > 0 && rs[j][0].0 == k { rs[j].drop_first() } else { rs[j] })
}

proof fn lemma_min_index_from(rs: Seq<Seq<(Seq<u8>, Seq<u8>)>>, i: int, best: Option<int>)
    requires
        0 <= i,
        best matches Some(b) ==> 0 <= b < rs.len() && rs[b].len() > 0,
    ensures
        min_index_from(rs, i, best) matches Some(m) ==> 0 <= m < rs.len() && rs[m].len() > 0,
        best is Some ==> min_index_from(rs, i, best) is Some,
        (exists|j: int| i <= j < rs.len() && rs[j].len() > 0) ==> min_index_from(rs, i, best) is Some,
    decreases rs.len() - i,
{
    if i < rs.len() {
        let better = rs[i].len() > 0 && match best {
            None => true,
            Some(b) => key_lt(rs[i][0].0, rs[b][0].0),
        };
        lemma_min_index_from(rs, i + 1, if better { Some(i) } else { best });
        if exists|j: int| i <= j < rs.len() && rs[j].len() > 0 {
            let j = choose|j: int| i <= j < rs.len() && rs[j].len() > 0;
            if j > i {
                assert(exists|j: int| i + 1 <= j < rs.len() && rs[j].len() > 0);
            }
        }
    }
}

proof fn lemma_advance_eq_len(rs: Seq<Seq<(Seq<u8>, Seq<u8>)>>, k: Seq<u8>, m: int)
    requires
        0 <= m < rs.len(),
        rs[m].len() > 0,
        rs[m][0].0 == k,
    ensures
        total_len(advance_eq(rs, k)) < total_len(rs),
    decreases rs.len(),
{
    lemma_advance_eq_le(rs.drop_last(), k);
    assert(advance_eq(rs, k).drop_last() =~= advance_eq(rs.drop_last(), k));
    if m < rs.len() - 1 {
        lemma_advance_eq_len(rs.drop_last(), k, m);
    }
}

proof fn lemma_advance_eq_le(rs: Seq<Seq<(Seq<u8>, Seq<u8>)>>, k: Seq<u8>)
    ensures
        total_len(advance_eq(rs, k)) <= total_len(rs),
    decreases rs.len(),
{
    if rs.len() > 0 {
        lemma_advance_eq_le(rs.drop_last(), k);
        assert(advance_eq(rs, k).drop_last() =~= advance_eq(rs.drop_last(), k));
    }
}

/// The entries that merging the sequences yields: the smallest next key first,
/// from the first sequence holding it; every sequence at that key moves past it.
pub open spec fn merge_many(rs: Seq<Seq<(Seq<u8>, Seq<u8>)>>) -> Seq<(Seq<u8>, Seq<u8>)>
    decreases total_len(rs),
    via merge_many_decreases
{
    match min_index(rs) {
        None => Seq::empty(),
        Some(m) => seq![rs[m][0]] + merge_many(advance_eq(rs, rs[m][0].0)),
    }
}

#[via_fn]
proof fn merge_many_decreases(rs: Seq<Seq<(Seq<u8>, Seq<u8>)>>) {
    lemma_min_index_from(rs, 0, None);
    if let Some(m) = min_index(rs) {
        lemma_advance_eq_len(rs, rs[m][0].0, m);
    }
}

/// Every entry of the merge is an entry of one of the sequences: a property that
/// holds of all their entries holds of all entries of the merge.
pub proof fn lemma_merge_many_keeps(rs: Seq<Seq<(Seq<u8>, Seq<u8>)>>, p: spec_fn((Seq<u8>, Seq<u8>)) -> bool)
    requires
        forall|i: int, j: int| 0 <= i < rs.len() && 0 <= j < rs[i].len() ==> p(#[trigger] rs[i][j]),
    ensures
        forall|k: int| 0 <= k < merge_many(rs).len() ==> p(#[trigger] merge_many(rs)[k]),
    decreases total_len(rs),
{
    lemma_min_index_from(rs, 0, None);
    if let Some(m) = min_index(rs) {
        let key = rs[m][0].0;
        let rs2 = advance_eq(rs, key);
        lemma_advance_eq_len(rs, key, m);
        assert forall|i: int, j: int| 0 <= i < rs2.len() && 0 <= j < rs2[i].len() implies p(#[trigger] rs2[i][j]) by {
            if rs[i].len() > 0 && rs[i][0].0 == key {
                assert(rs2[i][j] == rs[i][j + 1]);
            } else {
                assert(rs2[i][j] == rs[i][j]);
            }
        }
        lemma_merge_many_keeps(rs2, p);
        assert(p(rs[m][0]));
        let out = merge_many(rs);
        assert(out == seq![rs[m][0]] + merge_many(rs2));
        assert forall|x: int| 0 <= x < out.len() implies p(#[trigger] out[x]) by {
            if x > 0 {
                assert(out[x] == merge_many(rs2)[x - 1]);
            }
        }
    }
}

/// The sequence that `min_index_from` picks holds the smallest next key, and
/// every sequence before it has a greater next key or none.
proof fn lemma_min_index_from_spec(rs: Seq<Seq<(Seq<u8>, Seq<u8>)>>, i: int, best: Option<int>)
    requires
        0 <= i <= rs.len(),
        best matches Some(b) ==> {
            &&& 0 <= b < i
            &&& rs[b].len() > 0
            &&& forall|j: int| 0 <= j < i && rs[j].len() > 0 ==> key_le(rs[b][0].0, #[trigger] rs[j][0].0)
            &&& forall|j: int| 0 <= j < b && rs[j].len() > 0 ==> key_lt(rs[b][0].0, #[trigger] rs[j][0].0)
        },
        best is None ==> forall|j: int| 0 <= j < i ==> (#[trigger] rs[j]).len() == 0,
    ensures
        match min_index_from(rs, i, best) {
            Some(m) => {
                &&& 0 <= m < rs.len()
                &&& rs[m].len() > 0
                &&& forall|j: int| 0 <= j < rs.len() && rs[j].len() > 0 ==> key_le(rs[m][0].0, #[trigger] rs[j][0].0)
                &&& forall|j: int| 0 <= j < m && rs[j].len() > 0 ==> key_lt(rs[m][0].0, #[trigger] rs[j][0].0)
            },
            None => forall|j: int| 0 <= j < rs.len() ==> (#[trigger] rs[j]).len() == 0,
        },
    decreases rs.len() - i,
{
    if i < rs.len() {
        let better = rs[i].len() > 0 && match best {
            None => true,
            Some(b) => key_lt(rs[i][0].0, rs[b][0].0),
        };
        let nb = if better { Some(i) } else { best };
        if better {
            lemma_key_le_refl(rs[i][0].0);
            assert forall|j: int| 0 <= j < i + 1 && rs[j].len() > 0 implies key_le(rs[i][0].0, #[trigger] rs[j][0].0) by {
                if j < i {
                    let b = best->0;
                    lemma_key_lt_le_trans(rs[i][0].0, rs[b][0].0, rs[j][0].0);
                    lemma_key_lt_le(rs[i][0].0, rs[j][0].0);
                }
            }
            assert forall|j: int| 0 <= j < i && rs[j].len() > 0 implies key_lt(rs[i][0].0, #[trigger] rs[j][0].0) by {
                let b = best->0;
                lemma_key_lt_le_trans(rs[i][0].0, rs[b][0].0, rs[j][0].0);
            }
        } else if rs[i].len() > 0 {
            let b = best->0;
            assert(key_le(rs[b][0].0, rs[i][0].0));
        }
        lemma_min_index_from_spec(rs, i + 1, nb);
    }
}

/// Merging sequences of entries with strictly increasing keys gives entries with
/// strictly increasing keys.
pub proof fn lemma_merge_many_sorted(rs: Seq<Seq<(Seq<u8>, Seq<u8>)>>)
    requires
        forall|i: int| 0 <= i < rs.len() ==> entries_strictly_sorted(#[trigger] rs[i]),
    ensures
        entries_strictly_sorted(merge_many(rs)),
    decreases total_len(rs),
{
    lemma_min_index_from_spec(rs, 0, None);
    if let Some(m) = min_index(rs) {
        let k0 = rs[m][0].0;
        let rs2 = advance_eq(rs, k0);
        lemma_advance_eq_len(rs, k0, m);
        assert forall|i: int| 0 <= i < rs2.len() implies entries_strictly_sorted(#[trigger] rs2[i]) by {
            if rs[i].len() > 0 && rs[i][0].0 == k0 {
                lemma_sorted_drop_first(rs[i]);
            }
        }
        lemma_merge_many_sorted(rs2);
        let p = |e: (Seq<u8>, Seq<u8>)| key_lt(k0, e.0);
        assert forall|i: int, j: int| 0 <= i < rs2.len() && 0 <= j < rs2[i].len() implies p(#[trigger] rs2[i][j]) by {
            assert(entries_strictly_sorted(rs[i]));
            if rs[i].len() > 0 && rs[i][0].0 == k0 {
                assert(rs2[i][j] == rs[i][j + 1]);
                assert(key_lt(rs[i][0].0, rs[i][j + 1].0));
            } else {
                assert(rs2[i][j] == rs[i][j]);
                assert(key_le(k0, rs[i][0].0));
                if key_le(rs[i][0].0, k0) {
                    lemma_key_le_antisym(rs[i][0].0, k0);
                }
                if j > 0 {
                    assert(key_lt(rs[i][0].0, rs[i][j].0));
                    lemma_key_lt_trans(k0, rs[i][0].0, rs[i][j].0);
                }
            }
        }
        lemma_merge_many_keeps(rs2, p);
        let rest = merge_many(rs2);
        assert forall|x: int| 0 <= x < rest.len() implies key_lt(k0, #[trigger] rest[x].0) by {
            assert(p(rest[x]));
        }
        lemma_sorted_cons(rs[m][0], rest);
    }
}

/// The value of key `k` in the first sequence that holds it, if any.
pub open spec fn lookup_first(rs: Seq<Seq<(Seq<u8>, Seq<u8>)>>, k: Seq<u8>) -> Option<Seq<u8>>
    decreases rs.len(),
{
    if rs.len() == 0 {
        None
    } else if lookup(rs[0], k) is Some {
        lookup(rs[0], k)
    } else {
        lookup_first(rs.drop_first(), k)
    }
}

proof fn lemma_lookup_first_same(rs: Seq<Seq<(Seq<u8>, Seq<u8>)>>, rs2: Seq<Seq<(Seq<u8>, Seq<u8>)>>, k: Seq<u8>)
    requires
        rs.len() == rs2.len(),
        forall|i: int| 0 <= i < rs.len() ==> lookup(#[trigger] rs[i], k) == lookup(rs2[i], k),
    ensures
        lookup_first(rs, k) == lookup_first(rs2, k),
    decreases rs.len(),
{
    if rs.len() > 0 {
        assert(lookup(rs[0], k) == lookup(rs2[0], k));
        assert forall|i: int| 0 <= i < rs.drop_first().len() implies lookup(#[trigger] rs.drop_first()[i], k) == lookup(rs2.drop_first()[i], k) by {
            assert(rs.drop_first()[i] == rs[i + 1]);
            assert(rs2.drop_first()[i] == rs2[i + 1]);
        }
        lemma_lookup_first_same(rs.drop_first(), rs2.drop_first(), k);
    }
}

proof fn lemma_lookup_first_at(rs: Seq<Seq<(Seq<u8>, Seq<u8>)>>, m: int, k: Seq<u8>)
    requires
        0 <= m < rs.len(),
        forall|j: int| 0 <= j < m ==> lookup(#[trigger] rs[j], k) is None,
        lookup(rs[m], k) is Some,
    ensures
        lookup_first(rs, k) == lookup(rs[m], k),
    decreases m,
{
    if m > 0 {
        assert(lookup(rs[0], k) is None);
        assert forall|j: int| 0 <= j < m - 1 implies lookup(#[trigger] rs.drop_first()[j], k) is None by {
            assert(rs.drop_first()[j] == rs[j + 1]);
        }
        assert(rs.drop_first()[m - 1] == rs[m]);
        lemma_lookup_first_at(rs.drop_first(), m - 1, k);
    }
}

proof fn lemma_lookup_first_none(rs: Seq<Seq<(Seq<u8>, Seq<u8>)>>, k: Seq<u8>)
    requires
        forall|j: int| 0 <= j < rs.len() ==> lookup(#[trigger] rs[j], k) is None,
    ensures
        lookup_first(rs, k) is None,
    decreases rs.len(),
{
    if rs.len() > 0 {
        assert(lookup(rs[0], k) is None);
        assert forall|j: int| 0 <= j < rs.drop_first().len() implies lookup(#[trigger] rs.drop_first()[j], k) is None by {
            assert(rs.drop_first()[j] == rs[j + 1]);
        }
        lemma_lookup_first_none(rs.drop_first(), k);
    }
}

/// A key's value in the merge of sequences of entries with strictly increasing
/// keys is its value in the first sequence that holds it.
pub proof fn lemma_merge_many_lookup(rs: Seq<Seq<(Seq<u8>, Seq<u8>)>>, k: Seq<u8>)
    requires
        forall|i: int| 0 <= i < rs.len() ==> entries_strictly_sorted(#[trigger] rs[i]),
    ensures
        lookup(merge_many(rs), k) == lookup_first(rs, k),
    decreases total_len(rs),
{
    lemma_min_index_from_spec(rs, 0, None);
    match min_index(rs) {
        None => {
            assert forall|j: int| 0 <= j < rs.len() implies lookup(#[trigger] rs[j], k) is None by {
                assert(rs[j].len() == 0);
            }
            lemma_lookup_first_none(rs, k);
        },
        Some(m) => {
            let k0 = rs[m][0].0;
            let rs2 = advance_eq(rs, k0);
            let out = merge_many(rs);
            assert(out == seq![rs[m][0]] + merge_many(rs2));
            if k == k0 {
                assert forall|j: int| 0 <= j < m implies lookup(#[trigger] rs[j], k) is None by {
                    if rs[j].len() > 0 {
                        assert(key_lt(k0, rs[j][0].0));
                        lemma_lookup_below_first(rs[j], k);
                    }
                }
                lemma_lookup_first_at(rs, m, k);
            } else {
                lemma_advance_eq_len(rs, k0, m);
                assert forall|i: int| 0 <= i < rs2.len() implies entries_strictly_sorted(#[trigger] rs2[i]) by {
                    if rs[i].len() > 0 && rs[i][0].0 == k0 {
                        lemma_sorted_drop_first(rs[i]);
                    }
                }
                lemma_merge_many_lookup(rs2, k);
                assert(out.drop_first() =~= merge_many(rs2));
                assert forall|i: int| 0 <= i < rs.len() implies lookup(#[trigger] rs[i], k) == lookup(rs2[i], k) by {
                    if rs[i].len() > 0 && rs[i][0].0 == k0 {
                        assert(rs2[i] == rs[i].drop_first());
                    }
                }
                lemma_lookup_first_same(rs, rs2, k);
            }
        },
    }
}

/// Merges iterators over sorted entries into one. On equal keys, the entry of
/// the earlier iterator wins and the others move past it.
pub struct MergeIterator<I: StorageIterator> {
    iters: Vec<I>,
    current: Option<usize>,
}

/// What each iterator yields.
pub open spec fn remainings<I: StorageIterator>(iters: Seq<I>) -> Seq<Seq<(Seq<u8>, Seq<u8>)>> {
    Seq::new(iters.len(), |i: int| iters[i].remaining())
}

/// Every iterator's state is consistent.
pub open spec fn all_inv<I: StorageIterator>(iters: Seq<I>) -> bool {
    forall|i: int| 0 <= i < iters.len() ==> (#[trigger] iters[i]).inv()
}

impl<I: StorageIterator> MergeIterator<I> {
    fn find_current(iters: &Vec<I>) -> (r: Option<usize>)
        requires
            all_inv(iters@),
        ensures
            r matches Some(m) ==> min_index(remainings(iters@)) == Some(m as int),
            r is None ==> min_index(remainings(iters@)) is None,
    {
        let ghost rs = remainings(iters@);
        let mut best: Option<usize> = None;
        let mut j: usize = 0;
        while j < iters.len()
            invariant
                rs == remainings(iters@),
                all_inv(iters@),
                j <= iters@.len(),
                best matches Some(b) ==> b < j && rs[b as int].len() > 0,
                min_index(rs) == min_index_from(rs, j as int, match best { Some(b) => Some(b as int), None => None }),
            decreases iters@.len() - j,
        {
            assert(iters@[j as int].inv());
            if iters[j].is_valid() {
                let better = match best {
                    None => true,
                    Some(b) => {
                        assert(iters@[b as int].inv());
                        key_lt_exec(iters[j].key(), iters[b].key())
                    },
                };
                if better {
                    best = Some(j);
                }
            }
            j = j + 1;
        }
        best
    }

    /// Creates the merge of `iters`, in order of precedence on equal keys.
    pub fn create(iters: Vec<I>) -> (it: Self)
        requires
            all_inv(iters@),
        ensures
            it.inv(),
            it.remaining() == merge_many(remainings(iters@)),
    {
        let current = Self::find_current(&iters);
        Self { iters, current }
    }
}

impl<I: StorageIterator> StorageIterator for MergeIterator<I> {
    closed spec fn inv(&self) -> bool {
        &&& all_inv(self.iters@)
        &&& match self.current {
            Some(m) => min_index(remainings(self.iters@)) == Some(m as int),
            None => min_index(remainings(self.iters@)) is None,
        }
    }

    closed spec fn remaining(&self) -> Seq<(Seq<u8>, Seq<u8>)> {
        merge_many(remainings(self.iters@))
    }

    fn key(&self) -> (k: &[u8]) {
        proof {
            lemma_min_index_from(remainings(self.iters@), 0, None);
        }
        let m = self.current.unwrap();
        assert(self.iters@[m as int].inv());
        self.iters[m].key()
    }

    fn value(&self) -> (v: &[u8]) {
        proof {
            lemma_min_index_from(remainings(self.iters@), 0, None);
        }
        let m = self.current.unwrap();
        assert(self.iters@[m as int].inv());
        self.iters[m].value()
    }

    fn is_valid(&self) -> (r: bool) {
        proof {
            lemma_min_index_from(remainings(self.iters@), 0, None);
        }
        self.current.is_some()
    }

    fn next(&mut self) {
        let ghost rs = remainings(self.iters@);
        proof {
            lemma_min_index_from(rs, 0, None);
        }
        let m = self.current.unwrap();
        assert(self.iters@[m as int].inv());
        let cur_key = slice_to_vec(self.iters[m].key());
        let ghost k = cur_key@;
        let n = self.iters.len();
        let mut j: usize = 0;
        while j < n
            invariant
                n == self.iters@.len(),
                k == cur_key@,
                rs.len() == n,
                j <= n,
                all_inv(self.iters@),
                forall|i: int| 0 <= i < n ==> #[trigger] remainings(self.iters@)[i] == if i < j { advance_eq(rs, k)[i] } else { rs[i] },
            decreases n - j,
        {
            assert(self.iters@[j as int].inv());
            let ghost before = self.iters@;
            assert(remainings(before)[j as int] == rs[j as int]);
            let hit = self.iters[j].is_valid() && key_eq_exec(self.iters[j].key(), cur_key.as_slice());
            if hit {
                let mut it = self.iters.remove(j);
                it.next();
                self.iters.insert(j, it);
                proof {
                    assert(self.iters@ =~= before.update(j as int, it));
                    assert(rs[j as int].len() > 0 && rs[j as int][0].0 == k);
                    assert(remainings(self.iters@)[j as int] == rs[j as int].drop_first());
                    assert(advance_eq(rs, k)[j as int] == rs[j as int].drop_first());
                }
            } else {
                proof {
                    assert(!(rs[j as int].len() > 0 && rs[j as int][0].0 == k));
                    assert(advance_eq(rs, k)[j as int] == rs[j as int]);
                }
            }
            proof {
                assert forall|i: int| 0 <= i < n implies #[trigger] remainings(self.iters@)[i] == if i < j + 1 { advance_eq(rs, k)[i] } else { rs[i] } by {
                    if i != j {
                        assert(remainings(before)[i] == (if i < j { advance_eq(rs, k)[i] } else { rs[i] }));
                    }
                }
                assert forall|i: int| 0 <= i < n implies (#[trigger] self.iters@[i]).inv() by {
                    if i != j {
                        assert(before[i].inv());
                    }
                }
            }
            j = j + 1;
        }
        proof {
            assert(remainings(self.iters@) =~= advance_eq(rs, k));
        }
        self.current = Self::find_current(&self.iters);
    }
}

} // verus!
