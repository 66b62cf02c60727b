//! An embeddable ordered key-value store organized as a log-structured
//! merge tree: a write-ahead log for durability, an in-memory sorted
//! table for recent mutations, and immutable sorted string tables for
//! persisted data.

use vstd::prelude::*;

pub mod codec;
pub mod database;
pub mod kvmap;
pub mod mem_table;
pub mod memory;
pub mod names;
pub mod sstable;
pub mod storage;
pub mod order;
pub mod wal;

pub use database::Database;
pub use database::RangeIterator;
pub use mem_table::MemTable;
pub use mem_table::MemTableRangeIterator;
pub use memory::MemoryReader;
pub use memory::MemoryStorage;
pub use names::parse_sstable_name;
pub use sstable::write_sstable;
pub use sstable::SSTableReader;
pub use storage::ReadAt;
pub use storage::Storage;

verus! {

/// Failure reported by a storage backend.
#[derive(Clone, Copy, PartialEq, Eq, Structural, Debug)]
pub enum IoError {
    /// A read reached past the end of the blob.
    UnexpectedEof,
    /// The named blob does not exist.
    NotFound,
    /// Any other backend failure.
    Other,
}

/// Top-level database error: either a storage failure or well-formed
/// storage whose contents are not a valid database image.
#[derive(PartialEq, Eq, Debug)]
pub enum Error {
    IoError(IoError),
    InvalidDatabase(String),
}

} // verus!
