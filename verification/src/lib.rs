//! A log-structured merge tree storage engine: the block and SST formats, their
//! iterators, the merge and concat iterators, and the compaction strategies.

pub mod codec;
pub mod key;
pub mod block;
pub mod lsm_storage;
pub mod table;
pub mod compact;
pub mod iterators;
