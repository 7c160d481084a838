//! Keys are byte strings, ordered lexicographically.

use vstd::prelude::*;

verus! {

/// `a <= b` in the lexicographic order on byte strings (a proper prefix is smaller).
pub open spec fn key_le(a: Seq<u8>, b: Seq<u8>) -> bool
    decreases a.len(),
{
    if a.len() == 0 {
        true
    } else if b.len() == 0 {
        false
    } else if a[0] != b[0] {
        a[0] < b[0]
    } else {
        key_le(a.drop_first(), b.drop_first())
    }
}

/// `a < b` in the lexicographic order on byte strings.
pub open spec fn key_lt(a: Seq<u8>, b: Seq<u8>) -> bool {
    !key_le(b, a)
}

/// The entries' keys are in strictly increasing order.
pub open spec fn entries_strictly_sorted(es: Seq<(Seq<u8>, Seq<u8>)>) -> bool {
    forall|i: int, j: int| 0 <= i < j < es.len() ==> key_lt(#[trigger] es[i].0, #[trigger] es[j].0)
}

/// The length of the longest common prefix of two byte strings.
pub open spec fn common_prefix_len(a: Seq<u8>, b: Seq<u8>) -> nat
    decreases a.len(),
{
    if a.len() == 0 || b.len() == 0 || a[0] != b[0] {
        0
    } else {
        1 + common_prefix_len(a.drop_first(), b.drop_first())
    }
}

/// The key order is reflexive.
pub proof fn lemma_key_le_refl(a: Seq<u8>)
    ensures
        key_le(a, a),
    decreases a.len(),
{
    if a.len() > 0 {
        lemma_key_le_refl(a.drop_first());
    }
}

/// The key order is total.
pub proof fn lemma_key_le_total(a: Seq<u8>, b: Seq<u8>)
    ensures
        key_le(a, b) || key_le(b, a),
    decreases a.len(),
{
    if a.len() > 0 && b.len() > 0 && a[0] == b[0] {
        lemma_key_le_total(a.drop_first(), b.drop_first());
    }
}

/// The key order is antisymmetric.
pub proof fn lemma_key_le_antisym(a: Seq<u8>, b: Seq<u8>)
    requires
        key_le(a, b),
        key_le(b, a),
    ensures
        a == b,
    decreases a.len(),
{
    if a.len() > 0 && b.len() > 0 {
        lemma_key_le_antisym(a.drop_first(), b.drop_first());
        assert(a =~= seq![a[0]] + a.drop_first());
        assert(b =~= seq![b[0]] + b.drop_first());
    }
    if a.len() == 0 && b.len() > 0 {
        assert(!key_le(b, a));
    }
}

/// The key order is transitive.
pub proof fn lemma_key_le_trans(a: Seq<u8>, b: Seq<u8>, c: Seq<u8>)
    requires
        key_le(a, b),
        key_le(b, c),
    ensures
        key_le(a, c),
    decreases a.len(),
{
    if a.len() > 0 && b.len() > 0 && c.len() > 0 && a[0] == b[0] && b[0] == c[0] {
        lemma_key_le_trans(a.drop_first(), b.drop_first(), c.drop_first());
    }
}

/// The strict key order is transitive.
pub proof fn lemma_key_lt_trans(a: Seq<u8>, b: Seq<u8>, c: Seq<u8>)
    requires
        key_lt(a, b),
        key_lt(b, c),
    ensures
        key_lt(a, c),
{
    lemma_key_le_total(a, b);
    if key_le(c, a) {
        lemma_key_le_trans(c, a, b);
    }
}

/// A key strictly below a key at most a third is strictly below the third.
pub proof fn lemma_key_lt_le_trans(a: Seq<u8>, b: Seq<u8>, c: Seq<u8>)
    requires
        key_lt(a, b),
        key_le(b, c),
    ensures
        key_lt(a, c),
{
    if key_le(c, a) {
        lemma_key_le_trans(b, c, a);
    }
}

/// A key strictly below another is at most it.
pub proof fn lemma_key_lt_le(a: Seq<u8>, b: Seq<u8>)
    requires
        key_lt(a, b),
    ensures
        key_le(a, b),
{
    lemma_key_le_total(a, b);
}

/// A key is not strictly below itself.
pub proof fn lemma_key_lt_irrefl(a: Seq<u8>)
    ensures
        !key_lt(a, a),
{
    lemma_key_le_refl(a);
}

/// The value of the first entry with key `k`, if any.
pub open spec fn lookup(es: Seq<(Seq<u8>, Seq<u8>)>, k: Seq<u8>) -> Option<Seq<u8>>
    decreases es.len(),
{
    if es.len() == 0 {
        None
    } else if es[0].0 == k {
        Some(es[0].1)
    } else {
        lookup(es.drop_first(), k)
    }
}

/// Looking up in two sequences of entries one after the other finds the key in
/// the first when it is there, else in the second.
pub proof fn lemma_lookup_append(a: Seq<(Seq<u8>, Seq<u8>)>, b: Seq<(Seq<u8>, Seq<u8>)>, k: Seq<u8>)
    ensures
        lookup(a + b, k) == if lookup(a, k) is Some { lookup(a, k) } else { lookup(b, k) },
    decreases a.len(),
{
    if a.len() > 0 {
        assert((a + b)[0] == a[0]);
        assert((a + b).drop_first() =~= a.drop_first() + b);
        lemma_lookup_append(a.drop_first(), b, k);
    } else {
        assert(a + b =~= b);
    }
}

/// Sorted entries hold no key below their first.
pub proof fn lemma_lookup_below_first(es: Seq<(Seq<u8>, Seq<u8>)>, k: Seq<u8>)
    requires
        entries_strictly_sorted(es),
        es.len() > 0,
        key_lt(k, es[0].0),
    ensures
        lookup(es, k) is None,
    decreases es.len(),
{
    lemma_key_lt_irrefl(k);
    assert(es[0].0 != k);
    let rest = es.drop_first();
    if rest.len() > 0 {
        assert(key_lt(es[0].0, es[1].0));
        lemma_key_lt_trans(k, es[0].0, rest[0].0);
        lemma_sorted_drop_first(es);
        lemma_lookup_below_first(rest, k);
    } else {
        assert(lookup(rest, k) is None);
    }
}

/// Dropping the first entry keeps entries sorted.
pub proof fn lemma_sorted_drop_first(es: Seq<(Seq<u8>, Seq<u8>)>)
    requires
        entries_strictly_sorted(es),
        es.len() > 0,
    ensures
        entries_strictly_sorted(es.drop_first()),
{
    assert forall|i: int, j: int| 0 <= i < j < es.drop_first().len() implies key_lt(#[trigger] es.drop_first()[i].0, #[trigger] es.drop_first()[j].0) by {
        assert(es.drop_first()[i] == es[i + 1]);
        assert(es.drop_first()[j] == es[j + 1]);
    }
}

/// An entry followed by sorted entries with greater keys is sorted.
pub proof fn lemma_sorted_cons(e: (Seq<u8>, Seq<u8>), es: Seq<(Seq<u8>, Seq<u8>)>)
    requires
        entries_strictly_sorted(es),
        forall|i: int| 0 <= i < es.len() ==> key_lt(e.0, #[trigger] es[i].0),
    ensures
        entries_strictly_sorted(seq![e] + es),
{
    let out = seq![e] + es;
    assert forall|i: int, j: int| 0 <= i < j < out.len() implies key_lt(#[trigger] out[i].0, #[trigger] out[j].0) by {
        assert(out[j] == es[j - 1]);
        if i > 0 {
            assert(out[i] == es[i - 1]);
        }
    }
}

proof fn lemma_key_le_skip(a: Seq<u8>, b: Seq<u8>, i: int)
    requires
        0 <= i < a.len(),
        i < b.len(),
        a[i] == b[i],
    ensures
        key_le(a.skip(i), b.skip(i)) == key_le(a.skip(i + 1), b.skip(i + 1)),
{
    assert(a.skip(i).drop_first() =~= a.skip(i + 1));
    assert(b.skip(i).drop_first() =~= b.skip(i + 1));
}

proof fn lemma_common_prefix_skip(a: Seq<u8>, b: Seq<u8>, i: int)
    requires
        0 <= i < a.len(),
        i < b.len(),
        a[i] == b[i],
    ensures
        common_prefix_len(a.skip(i), b.skip(i)) == 1 + common_prefix_len(
            a.skip(i + 1),
            b.skip(i + 1),
        ),
{
    assert(a.skip(i).drop_first() =~= a.skip(i + 1));
    assert(b.skip(i).drop_first() =~= b.skip(i + 1));
}

/// What the common prefix length is: the first place where the strings differ or one ends.
pub proof fn lemma_common_prefix_len(a: Seq<u8>, b: Seq<u8>)
    ensures
        common_prefix_len(a, b) <= a.len(),
        common_prefix_len(a, b) <= b.len(),
        a.take(common_prefix_len(a, b) as int) == b.take(common_prefix_len(a, b) as int),
        common_prefix_len(a, b) == a.len() || common_prefix_len(a, b) == b.len() || a[common_prefix_len(a, b) as int] != b[common_prefix_len(a, b) as int],
    decreases a.len(),
{
    if !(a.len() == 0 || b.len() == 0 || a[0] != b[0]) {
        lemma_common_prefix_len(a.drop_first(), b.drop_first());
        let n = common_prefix_len(a, b) as int;
        assert(a.take(n) =~= seq![a[0]] + a.drop_first().take(n - 1));
        assert(b.take(n) =~= seq![b[0]] + b.drop_first().take(n - 1));
    } else {
        assert(a.take(0) =~= b.take(0));
    }
}

/// Decides `a <= b` in the key order.
pub fn key_le_exec(a: &[u8], b: &[u8]) -> (r: bool)
    ensures
        r == key_le(a@, b@),
{
    let mut i: usize = 0;
    proof {
        assert(a@.skip(0) =~= a@);
        assert(b@.skip(0) =~= b@);
    }
    while i < a.len() && i < b.len()
        invariant
            i <= a@.len(),
            i <= b@.len(),
            key_le(a@, b@) == key_le(a@.skip(i as int), b@.skip(i as int)),
        decreases a@.len() - i,
    {
        if a[i] != b[i] {
            return a[i] < b[i];
        }
        proof {
            lemma_key_le_skip(a@, b@, i as int);
        }
        i = i + 1;
    }
    a.len() <= b.len()
}

/// Decides whether two keys are equal.
pub fn key_eq_exec(a: &[u8], b: &[u8]) -> (r: bool)
    ensures
        r == (a@ == b@),
{
    if a.len() != b.len() {
        return false;
    }
    let mut i: usize = 0;
    while i < a.len()
        invariant
            a@.len() == b@.len(),
            i <= a@.len(),
            forall|j: int| 0 <= j < i ==> a@[j] == b@[j],
        decreases a@.len() - i,
    {
        if a[i] != b[i] {
            return false;
        }
        i = i + 1;
    }
    assert(a@ =~= b@);
    true
}

/// Decides `a < b` in the key order.
pub fn key_lt_exec(a: &[u8], b: &[u8]) -> (r: bool)
    ensures
        r == key_lt(a@, b@),
{
    !key_le_exec(b, a)
}

/// Computes the length of the longest common prefix of two byte strings.
pub fn common_prefix_len_exec(a: &[u8], b: &[u8]) -> (r: usize)
    ensures
        r == common_prefix_len(a@, b@),
{
    let mut i: usize = 0;
    proof {
        assert(a@.skip(0) =~= a@);
        assert(b@.skip(0) =~= b@);
    }
    while i < a.len() && i < b.len() && a[i] == b[i]
        invariant
            i <= a@.len(),
            i <= b@.len(),
            common_prefix_len(a@, b@) == i + common_prefix_len(a@.skip(i as int), b@.skip(i as int)),
        decreases a@.len() - i,
    {
        proof {
            lemma_common_prefix_skip(a@, b@, i as int);
        }
        i = i + 1;
    }
    i
}

} // verus!
