use std::sync::Arc;

use mini_lsm::iterators::StorageIterator;
use mini_lsm::table::{SsTable, SsTableBuilder, SsTableIterator};

fn key_of(i: usize) -> Vec<u8> {
    format!("key_{:03}", i).into_bytes()
}

fn value_of(i: usize) -> Vec<u8> {
    format!("value_{:04}", i).into_bytes()
}

fn build_table(id: usize, n: usize, block_size: usize) -> SsTable {
    let mut builder = SsTableBuilder::new(block_size);
    for i in 0..n {
        builder.add(&key_of(i), &value_of(i));
    }
    builder.build(id)
}

fn collect<I: StorageIterator>(iter: &mut I) -> Vec<(Vec<u8>, Vec<u8>)> {
    let mut out = Vec::new();
    while iter.is_valid() {
        out.push((iter.key().to_vec(), iter.value().to_vec()));
        iter.next();
    }
    out
}

#[test]
fn sst_builder_starts_empty_and_estimates_one_block() {
    let mut builder = SsTableBuilder::new(128);
    assert!(builder.is_empty());
    assert_eq!(builder.estimated_size(), 128);
    builder.add(b"a", b"1");
    assert!(!builder.is_empty());
    assert_eq!(builder.estimated_size(), 128);
}

#[test]
fn sst_estimated_size_counts_finished_blocks() {
    let mut builder = SsTableBuilder::new(16);
    builder.add(b"a", b"1");
    builder.add(b"b", b"2");
    // The first block (one 8-byte entry) is full; it is encoded with its
    // offset and count, 12 bytes, and a new block is started.
    assert_eq!(builder.estimated_size(), 12 + 16);
}

#[test]
fn sst_keeps_id_and_key_range() {
    let table = build_table(7, 100, 64);
    assert_eq!(table.sst_id(), 7);
    assert_eq!(table.first_key(), &key_of(0)[..]);
    assert_eq!(table.last_key(), &key_of(99)[..]);
    assert!(table.num_of_blocks() > 1);
    assert_eq!(table.table_size(), table.file_bytes().len() as u64);
}

#[test]
fn sst_file_ends_with_the_meta_offset() {
    let table = build_table(1, 10, 64);
    let file = table.file_bytes();
    let n = file.len();
    let offset = u32::from_be_bytes([file[n - 4], file[n - 3], file[n - 2], file[n - 1]]) as usize;
    assert_eq!(offset, table.block_meta_offset);
    assert_eq!(table.block_meta[0].offset, 0);
    assert_eq!(table.block_meta[0].first_key, key_of(0));
    assert_eq!(table.block_meta[table.block_meta.len() - 1].last_key, key_of(9));
}

#[test]
fn sst_single_block_layout() {
    let mut builder = SsTableBuilder::new(4096);
    builder.add(b"a", b"1");
    let table = builder.build(3);
    let file = table.file_bytes().to_vec();
    // block: entry, offset 0, count 1
    let mut want = vec![0, 0, 0, 1, b'a', 0, 1, b'1', 0, 0, 0, 1];
    // meta: offset, first key, last key
    want.extend_from_slice(&[0, 0, 0, 0, 0, 1, b'a', 0, 1, b'a']);
    // meta offset
    want.extend_from_slice(&[0, 0, 0, 12]);
    assert_eq!(file, want);
    assert_eq!(table.block_meta_offset, 12);
}

#[test]
fn sst_iterator_yields_all_entries_in_order() {
    let table = Arc::new(build_table(1, 100, 64));
    let mut iter = SsTableIterator::create_and_seek_to_first(table);
    let got = collect(&mut iter);
    let want: Vec<(Vec<u8>, Vec<u8>)> = (0..100).map(|i| (key_of(i), value_of(i))).collect();
    assert_eq!(got, want);
}

#[test]
fn sst_iterator_seek_to_first_restarts() {
    let table = Arc::new(build_table(1, 20, 64));
    let mut iter = SsTableIterator::create_and_seek_to_first(table);
    for _ in 0..15 {
        iter.next();
    }
    assert_eq!(iter.key(), &key_of(15)[..]);
    iter.seek_to_first();
    assert_eq!(iter.key(), &key_of(0)[..]);
    assert_eq!(iter.value(), &value_of(0)[..]);
}

#[test]
fn sst_iterator_seeks_to_the_first_key_not_below() {
    let table = Arc::new(build_table(1, 100, 64));
    let iter = SsTableIterator::create_and_seek_to_key(table.clone(), &key_of(50));
    assert_eq!(iter.key(), &key_of(50)[..]);
    let iter = SsTableIterator::create_and_seek_to_key(table.clone(), b"key_0505");
    assert_eq!(iter.key(), &key_of(51)[..]);
    let iter = SsTableIterator::create_and_seek_to_key(table.clone(), b"");
    assert_eq!(iter.key(), &key_of(0)[..]);
    let iter = SsTableIterator::create_and_seek_to_key(table.clone(), b"z");
    assert!(!iter.is_valid());

    let mut iter = SsTableIterator::create_and_seek_to_first(table);
    iter.seek_to_key(&key_of(99));
    assert_eq!(iter.value(), &value_of(99)[..]);
    iter.next();
    assert!(!iter.is_valid());
}

#[test]
fn sst_finds_the_block_that_may_hold_a_key() {
    let table = build_table(1, 100, 64);
    assert_eq!(table.find_block_idx(b""), 0);
    assert_eq!(table.find_block_idx(&key_of(0)), 0);
    assert_eq!(table.find_block_idx(b"z"), table.num_of_blocks() - 1);
    let idx = table.find_block_idx(&key_of(42));
    assert!(table.block_meta[idx].first_key <= key_of(42));
    if idx + 1 < table.num_of_blocks() {
        assert!(table.block_meta[idx + 1].first_key > key_of(42));
    }
}

#[test]
fn sst_reads_each_block() {
    let table = build_table(1, 30, 64);
    let mut total = 0;
    for i in 0..table.num_of_blocks() {
        let block = table.read_block(i);
        total += block.offsets.len();
    }
    assert_eq!(total, 30);
}

#[test]
fn sst_iterator_counts_one_active_iterator() {
    let table = Arc::new(build_table(1, 3, 64));
    let iter = SsTableIterator::create_and_seek_to_first(table);
    assert_eq!(iter.num_active_iterators(), 1);
}

#[test]
fn sst_holds_entries_longer_than_a_block() {
    let big_a = (vec![b'a'; 50000], vec![b'1'; 60000]);
    let big_b = (vec![b'b'; 65535], vec![b'2'; 65535]);
    let mut builder = SsTableBuilder::new(4096);
    builder.add(&big_a.0, &big_a.1);
    builder.add(&big_b.0, &big_b.1);
    builder.add(b"c", b"3");
    let table = Arc::new(builder.build(1));
    assert_eq!(table.num_of_blocks(), 3);
    let mut iter = SsTableIterator::create_and_seek_to_first(table);
    let got = collect(&mut iter);
    assert_eq!(got, vec![big_a, big_b, (b"c".to_vec(), b"3".to_vec())]);
}

#[test]
fn sst_check_format_accepts_a_built_table() {
    assert!(build_table(1, 30, 64).check_format());
    assert!(build_table(2, 1, 64).check_format());
}

#[test]
fn sst_check_format_rejects_a_damaged_table() {
    let mut t = build_table(1, 30, 64);
    t.last_key = b"zzz".to_vec();
    assert!(!t.check_format());
    let mut t = build_table(1, 30, 64);
    t.block_meta[0].first_key = b"key_001".to_vec();
    assert!(!t.check_format());
    let mut t = build_table(1, 30, 64);
    t.block_meta_offset = t.file.len() + 1;
    assert!(!t.check_format());
}

#[test]
fn sst_check_format_rejects_a_key_longer_than_a_block_can_hold() {
    let mut builder = SsTableBuilder::new(64);
    builder.add(&vec![b'k'; 0x10000], b"v");
    assert!(!builder.build(1).check_format());
}
