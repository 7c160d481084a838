use std::sync::Arc;

use mini_lsm::block::{Block, BlockBuilder, BlockIterator};

fn build_block(entries: &[(&[u8], &[u8])], block_size: usize) -> Block {
    let mut builder = BlockBuilder::new(block_size);
    for (k, v) in entries {
        assert!(builder.add(k, v));
    }
    builder.build()
}

fn collect(mut iter: BlockIterator) -> Vec<(Vec<u8>, Vec<u8>)> {
    let mut out = Vec::new();
    while iter.is_valid() {
        out.push((iter.key().to_vec(), iter.value().to_vec()));
        iter.next();
    }
    out
}

#[test]
fn block_builder_starts_empty() {
    let builder = BlockBuilder::new(64);
    assert!(builder.is_empty());
}

#[test]
fn block_entries_store_the_key_overlap_with_the_first_key() {
    let mut builder = BlockBuilder::new(100);
    assert!(builder.add(b"a", b"1"));
    assert!(!builder.is_empty());
    assert!(builder.add(b"ab", b"2"));
    let block = builder.build();
    assert_eq!(
        block.data,
        vec![0, 0, 0, 1, b'a', 0, 1, b'1', 0, 1, 0, 1, b'b', 0, 1, b'2']
    );
    assert_eq!(block.offsets, vec![0, 8]);
}

#[test]
fn block_encode_appends_offsets_and_count() {
    let block = build_block(&[(b"a", b"1"), (b"ab", b"2")], 100);
    let encoded = block.encode();
    assert_eq!(
        &encoded[..],
        &[0, 0, 0, 1, 97, 0, 1, 49, 0, 1, 0, 1, 98, 0, 1, 50, 0, 0, 0, 8, 0, 2][..]
    );
}

#[test]
fn block_decode_of_encode_gives_the_block_back() {
    let block = build_block(&[(b"apple", b"red"), (b"apricot", b""), (b"banana", b"yellow")], 200);
    let encoded = block.encode();
    let decoded = Block::decode(&encoded);
    assert_eq!(decoded.data, block.data);
    assert_eq!(decoded.offsets, block.offsets);
}

#[test]
fn block_builder_rejects_an_entry_past_the_block_size() {
    let mut builder = BlockBuilder::new(20);
    assert!(builder.add(b"a", b"1"));
    // 8 bytes of data, an 8-byte entry and a 6-byte footer make 22 > 20.
    assert!(!builder.add(b"ab", b"2"));
    let block = builder.build();
    assert_eq!(block.offsets, vec![0]);
    assert_eq!(block.data.len(), 8);
}

#[test]
fn block_builder_accepts_an_entry_that_just_fits() {
    let mut builder = BlockBuilder::new(22);
    assert!(builder.add(b"a", b"1"));
    assert!(builder.add(b"ab", b"2"));
}

#[test]
fn block_builder_always_accepts_the_first_entry() {
    let mut builder = BlockBuilder::new(4);
    assert!(builder.add(b"a long key", b"a long value"));
    assert!(!builder.is_empty());
}

#[test]
fn block_iterator_yields_entries_in_order() {
    let entries: Vec<(&[u8], &[u8])> = vec![(b"k1", b"v1"), (b"k2", b"v2"), (b"k3", b"")];
    let block = Arc::new(build_block(&entries, 4096));
    let got = collect(BlockIterator::create_and_seek_to_first(block));
    let want: Vec<(Vec<u8>, Vec<u8>)> = entries.iter().map(|(k, v)| (k.to_vec(), v.to_vec())).collect();
    assert_eq!(got, want);
}

#[test]
fn block_iterator_reads_keys_sharing_a_prefix() {
    let block = Arc::new(build_block(&[(b"key_001", b"x"), (b"key_002", b"y"), (b"kez", b"z")], 4096));
    let got = collect(BlockIterator::create_and_seek_to_first(block));
    assert_eq!(
        got,
        vec![
            (b"key_001".to_vec(), b"x".to_vec()),
            (b"key_002".to_vec(), b"y".to_vec()),
            (b"kez".to_vec(), b"z".to_vec())
        ]
    );
}

#[test]
fn block_iterator_seeks_to_the_first_key_not_below() {
    let block = Arc::new(build_block(&[(b"a", b"1"), (b"c", b"3"), (b"e", b"5")], 4096));
    let it = BlockIterator::create_and_seek_to_key(block.clone(), b"b");
    assert!(it.is_valid());
    assert_eq!(it.key(), b"c");
    assert_eq!(it.value(), b"3");

    let it = BlockIterator::create_and_seek_to_key(block.clone(), b"c");
    assert_eq!(it.key(), b"c");

    let it = BlockIterator::create_and_seek_to_key(block.clone(), b"");
    assert_eq!(it.key(), b"a");

    let it = BlockIterator::create_and_seek_to_key(block.clone(), b"f");
    assert!(!it.is_valid());
}

#[test]
fn block_iterator_seek_to_first_and_seek_to_key_move_back() {
    let block = Arc::new(build_block(&[(b"a", b"1"), (b"c", b"3"), (b"e", b"5")], 4096));
    let mut it = BlockIterator::create_and_seek_to_first(block);
    it.next();
    it.next();
    assert_eq!(it.key(), b"e");
    it.seek_to_first();
    assert_eq!(it.key(), b"a");
    it.seek_to_key(b"d");
    assert_eq!(it.key(), b"e");
    it.next();
    assert!(!it.is_valid());
}

#[test]
fn block_holds_one_entry_longer_than_a_two_byte_offset() {
    let key = vec![b'k'; 40000];
    let value = vec![b'v'; 30000];
    let mut builder = BlockBuilder::new(4096);
    assert!(builder.add(&key, &value));
    assert!(!builder.add(b"z", b"1"));
    let block = builder.build();
    assert_eq!(block.data.len(), 6 + 40000 + 30000);
    let decoded = Block::decode(&block.encode());
    assert_eq!(decoded.offsets, vec![0]);
    let it = BlockIterator::create_and_seek_to_first(Arc::new(decoded));
    assert_eq!(it.key(), &key[..]);
    assert_eq!(it.value(), &value[..]);
}

#[test]
fn block_iterator_seek_on_an_empty_block_is_invalid() {
    let block = Arc::new(Block { data: Vec::new(), offsets: Vec::new() });
    let mut iter = BlockIterator::create_and_seek_to_first(block.clone());
    iter.seek_to_key(b"a");
    assert!(!iter.is_valid());
    let iter = BlockIterator::create_and_seek_to_key(block, b"a");
    assert!(!iter.is_valid());
}

#[test]
fn block_check_wf_rejects_an_entry_past_the_data() {
    let block = build_block(&[(b"a", b"1"), (b"b", b"2")], 100);
    assert!(block.check_wf());
    let mut cut = build_block(&[(b"a", b"1"), (b"b", b"2")], 100);
    cut.data.truncate(cut.data.len() - 1);
    assert!(!cut.check_wf());
}
