# mini_lsm

The storage core of a log-structured merge tree, with its behaviour stated as
contracts and proved with Verus.

- `src/block.rs`, `src/block/`: the block format (entries with keys stored
  relative to the block's first key, two-byte offsets, an entry count), the
  block builder and the block iterator with binary-search seeks.
- `src/table.rs`, `src/table/`: SSTs (encoded blocks, block metadata, the
  metadata offset), the SST builder and the SST iterator.
- `src/iterators/`: the concat iterator over a sorted run of SSTs, the merge
  iterator over any number of iterators (the earlier one wins on equal keys) and
  the two-way merge iterator.
- `src/compact/`: the simple leveled, tiered and leveled compaction strategies,
  the compaction of SSTs into new ones, and how a compaction's result is
  installed in the storage state; `state_ids.rs` proves that compaction keeps the
  state's SST ids consistent, and `key_order.rs` that a leveled compaction keeps
  its lower level in key order.
- `src/codec.rs`: big-endian integers and the calls into the `bytes` crate.
- `app/`: SST files on disk, the background compaction and flush threads, and the
  serde forms of compaction tasks.
- `tests/`: tests of the library on concrete values.
