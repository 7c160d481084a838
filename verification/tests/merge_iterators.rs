use std::sync::Arc;

use mini_lsm::iterators::concat_iterator::SstConcatIterator;
use mini_lsm::iterators::merge_iterator::MergeIterator;
use mini_lsm::iterators::two_merge_iterator::TwoMergeIterator;
use mini_lsm::iterators::StorageIterator;
use mini_lsm::table::{SsTable, SsTableBuilder, SsTableIterator};

fn table(id: usize, entries: &[(&str, &str)]) -> Arc<SsTable> {
    let mut builder = SsTableBuilder::new(32);
    for (k, v) in entries {
        builder.add(k.as_bytes(), v.as_bytes());
    }
    Arc::new(builder.build(id))
}

fn iter_of(t: &Arc<SsTable>) -> SsTableIterator {
    SsTableIterator::create_and_seek_to_first(t.clone())
}

fn collect<I: StorageIterator>(iter: &mut I) -> Vec<(String, String)> {
    let mut out = Vec::new();
    while iter.is_valid() {
        out.push((
            String::from_utf8(iter.key().to_vec()).unwrap(),
            String::from_utf8(iter.value().to_vec()).unwrap(),
        ));
        iter.next();
    }
    out
}

fn pairs(entries: &[(&str, &str)]) -> Vec<(String, String)> {
    entries.iter().map(|(k, v)| (k.to_string(), v.to_string())).collect()
}

#[test]
fn concat_iterator_yields_tables_one_after_the_other() {
    let t1 = table(1, &[("a", "1"), ("b", "2")]);
    let t2 = table(2, &[("c", "3"), ("d", "4"), ("e", "5")]);
    let mut iter = SstConcatIterator::create_and_seek_to_first(vec![t1, t2]);
    assert_eq!(collect(&mut iter), pairs(&[("a", "1"), ("b", "2"), ("c", "3"), ("d", "4"), ("e", "5")]));
}

#[test]
fn concat_iterator_over_no_tables_is_invalid() {
    let iter = SstConcatIterator::create_and_seek_to_first(Vec::new());
    assert!(!iter.is_valid());
}

#[test]
fn concat_iterator_seeks_across_tables() {
    let t1 = table(1, &[("a", "1"), ("c", "3")]);
    let t2 = table(2, &[("e", "5"), ("g", "7")]);
    let tables = vec![t1, t2];
    let mut iter = SstConcatIterator::create_and_seek_to_key(tables.clone(), b"d");
    assert_eq!(collect(&mut iter), pairs(&[("e", "5"), ("g", "7")]));
    let mut iter = SstConcatIterator::create_and_seek_to_key(tables.clone(), b"c");
    assert_eq!(collect(&mut iter), pairs(&[("c", "3"), ("e", "5"), ("g", "7")]));
    let iter = SstConcatIterator::create_and_seek_to_key(tables.clone(), b"h");
    assert!(!iter.is_valid());
    let mut iter = SstConcatIterator::create_and_seek_to_key(tables, b"");
    assert_eq!(collect(&mut iter).len(), 4);
}

#[test]
fn two_merge_iterator_prefers_the_first_on_equal_keys() {
    let a = table(1, &[("a", "a1"), ("c", "c1"), ("e", "e1")]);
    let b = table(2, &[("a", "a2"), ("b", "b2"), ("e", "e2"), ("f", "f2")]);
    let mut iter = TwoMergeIterator::create(iter_of(&a), iter_of(&b));
    assert_eq!(
        collect(&mut iter),
        pairs(&[("a", "a1"), ("b", "b2"), ("c", "c1"), ("e", "e1"), ("f", "f2")])
    );
}

#[test]
fn two_merge_iterator_with_an_empty_side() {
    let a = table(1, &[("x", "1")]);
    let empty: Vec<SsTableIterator> = Vec::new();
    let mut iter = TwoMergeIterator::create(iter_of(&a), MergeIterator::create(empty));
    assert_eq!(collect(&mut iter), pairs(&[("x", "1")]));
}

#[test]
fn merge_iterator_takes_the_earliest_iterator_on_equal_keys() {
    let newest = table(3, &[("b", "new"), ("d", "")]);
    let middle = table(2, &[("a", "mid"), ("b", "mid"), ("c", "mid")]);
    let oldest = table(1, &[("a", "old"), ("d", "old"), ("e", "old")]);
    let mut iter = MergeIterator::create(vec![iter_of(&newest), iter_of(&middle), iter_of(&oldest)]);
    assert_eq!(
        collect(&mut iter),
        pairs(&[("a", "mid"), ("b", "new"), ("c", "mid"), ("d", ""), ("e", "old")])
    );
}

#[test]
fn merge_iterator_over_nothing_is_invalid() {
    let iters: Vec<SsTableIterator> = Vec::new();
    let iter = MergeIterator::create(iters);
    assert!(!iter.is_valid());
}

#[test]
fn merge_iterator_of_one_iterator_yields_it() {
    let t = table(1, &[("a", "1"), ("b", "2")]);
    let mut iter = MergeIterator::create(vec![iter_of(&t)]);
    assert_eq!(collect(&mut iter), pairs(&[("a", "1"), ("b", "2")]));
}

#[test]
fn merge_iterators_nest() {
    let t1 = table(1, &[("a", "1"), ("c", "1")]);
    let t2 = table(2, &[("b", "2"), ("c", "2")]);
    let t3 = table(3, &[("c", "3"), ("d", "3")]);
    let inner = MergeIterator::create(vec![iter_of(&t1), iter_of(&t2)]);
    let outer = MergeIterator::create(vec![inner]);
    let mut iter = TwoMergeIterator::create(outer, iter_of(&t3));
    assert_eq!(collect(&mut iter), pairs(&[("a", "1"), ("b", "2"), ("c", "1"), ("d", "3")]));
}

#[test]
fn iterators_count_one_active_iterator() {
    let t = table(1, &[("a", "1")]);
    let iter = MergeIterator::create(vec![iter_of(&t)]);
    assert_eq!(iter.num_active_iterators(), 1);
    let concat = SstConcatIterator::create_and_seek_to_first(vec![t.clone()]);
    assert_eq!(concat.num_active_iterators(), 1);
}

#[test]
fn concat_iterator_seeks_past_an_empty_first_table() {
    let empty = table(1, &[]);
    let t2 = table(2, &[("b", "2"), ("c", "3")]);
    let t3 = table(3, &[("e", "5")]);
    let tables = vec![empty, t2, t3];
    let mut iter = SstConcatIterator::create_and_seek_to_key(tables.clone(), b"c");
    assert_eq!(collect(&mut iter), pairs(&[("c", "3"), ("e", "5")]));
    let mut iter = SstConcatIterator::create_and_seek_to_key(tables.clone(), b"");
    assert_eq!(collect(&mut iter), pairs(&[("b", "2"), ("c", "3"), ("e", "5")]));
    let mut iter = SstConcatIterator::create_and_seek_to_key(tables.clone(), b"a");
    assert_eq!(collect(&mut iter), pairs(&[("b", "2"), ("c", "3"), ("e", "5")]));
    let iter = SstConcatIterator::create_and_seek_to_key(tables, b"f");
    assert!(!iter.is_valid());
}

#[test]
fn sst_seek_to_key_and_create_and_seek_to_key_agree() {
    let t = table(1, &[("b", "1"), ("d", "2"), ("f", "3"), ("h", "4"), ("j", "5")]);
    for key in [&b""[..], b"a", b"b", b"c", b"g", b"j", b"k"] {
        let mut a = SsTableIterator::create_and_seek_to_first(t.clone());
        a.seek_to_key(key);
        let mut b = SsTableIterator::create_and_seek_to_key(t.clone(), key);
        assert_eq!(collect(&mut a), collect(&mut b));
    }
}
