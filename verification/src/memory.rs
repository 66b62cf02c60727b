//! An in-memory storage backend: blobs held in an ordered table. It
//! serves tests and any use of the database that needs no persistence.

use vstd::prelude::*;
use vstd::slice::slice_to_vec;

use crate::kvmap::lemma_map_of_index;
use crate::kvmap::lemma_map_of_key;
use crate::kvmap::lemma_sorted_implies_unique;
use crate::mem_table::MemTable;
use crate::storage::blob_or_empty;
use crate::storage::lists_names;
use crate::storage::ReadAt;
use crate::storage::Storage;
use crate::IoError;

verus! {

/// A reader over a snapshot of one blob's bytes.
pub struct MemoryReader {
    pub bytes: Vec<u8>,
}

impl ReadAt for MemoryReader {
    open spec fn data(&self) -> Seq<u8> {
        self.bytes@
    }

    fn read_exact_at(&self, offset: u64, len: usize) -> (r: Result<Vec<u8>, IoError>) {
        proof {
            assert(self.bytes@.len() == self.bytes.len());
        }
        if offset > u64::MAX - (len as u64) {
            return Err(IoError::UnexpectedEof);
        }
        if offset + (len as u64) > (self.bytes.len() as u64) {
            return Err(IoError::UnexpectedEof);
        }
        let start: usize = offset as usize;
        let mut out: Vec<u8> = Vec::new();
        let mut i: usize = 0;
        while i < len
            invariant
                0 <= i <= len,
                start == offset,
                offset + len <= self.bytes@.len(),
                self.bytes@.len() <= usize::MAX,
                out@ == self.bytes@.subrange(offset as int, offset + i),
            decreases len - i,
        {
            out.push(self.bytes[start + i]);
            proof {
                assert(out@ =~= self.bytes@.subrange(offset as int, offset + i + 1));
            }
            i = i + 1;
        }
        Ok(out)
    }
}

/// Blobs held in memory, keyed by name.
pub struct MemoryStorage {
    pub table: MemTable,
}

impl MemoryStorage {
    /// An empty namespace.
    pub fn new() -> (r: MemoryStorage)
        ensures
            r.inv(),
            r.blobs() == Map::<Seq<u8>, Seq<u8>>::empty(),
    {
        MemoryStorage { table: MemTable { entries: Vec::new() } }
    }
}

impl Storage for MemoryStorage {
    type Reader = MemoryReader;

    open spec fn blobs(&self) -> Map<Seq<u8>, Seq<u8>> {
        self.table@
    }

    open spec fn inv(&self) -> bool {
        self.table.wf()
    }

    fn read(&self, name: &[u8]) -> (r: Result<MemoryReader, IoError>) {
        match self.table.get(name) {
            Some(v) => Ok(MemoryReader { bytes: slice_to_vec(v) }),
            None => Err(IoError::NotFound),
        }
    }

    fn write(&mut self, name: &[u8], value: &[u8]) -> (r: Result<(), IoError>) {
        self.table.put(name, slice_to_vec(value));
        Ok(())
    }

    fn append(&mut self, name: &[u8], data: &[u8]) -> (r: Result<(), IoError>) {
        let mut contents: Vec<u8> = match self.table.get(name) {
            Some(v) => slice_to_vec(v),
            None => Vec::new(),
        };
        contents.extend_from_slice(data);
        proof {
            assert(contents@ == blob_or_empty(old(self).blobs(), name@) + data@);
        }
        self.table.put(name, contents);
        Ok(())
    }

    fn truncate(&mut self, name: &[u8]) -> (r: Result<(), IoError>) {
        let empty: Vec<u8> = Vec::new();
        proof {
            assert(empty@ =~= Seq::<u8>::empty());
        }
        self.table.put(name, empty);
        Ok(())
    }

    fn delete(&mut self, name: &[u8]) -> (r: Result<(), IoError>) {
        self.table.delete(name);
        Ok(())
    }

    fn list(&self) -> (r: Result<Vec<Vec<u8>>, IoError>) {
        let mut names: Vec<Vec<u8>> = Vec::new();
        let n = self.table.entries.len();
        let mut i: usize = 0;
        proof {
            lemma_sorted_implies_unique(self.table.entries_view());
        }
        while i < n
            invariant
                0 <= i <= n,
                n == self.table.entries@.len(),
                self.inv(),
                names@.len() == i,
                forall|j: int|
                    0 <= j < i ==> (#[trigger] names@[j])@ == self.table.entries_view()[j].0,
            decreases n - i,
        {
            let e: &(Vec<u8>, Vec<u8>) = &self.table.entries[i];
            names.push(slice_to_vec(e.0.as_slice()));
            i = i + 1;
        }
        proof {
            assert forall|j: int| 0 <= j < names@.len() implies self.blobs().contains_key(
                (#[trigger] names@[j])@,
            ) by {
                lemma_map_of_index(self.table.entries_view(), j);
            }
            assert forall|k: Seq<u8>| self.blobs().contains_key(k) implies exists|j: int|
                0 <= j < names@.len() && (#[trigger] names@[j])@ == k by {
                lemma_map_of_key(self.table.entries_view(), k);
                let j = choose|j: int|
                    0 <= j < self.table.entries_view().len() && self.table.entries_view()[j].0
                        == k;
                assert((names@[j])@ == k);
            }
            assert(forall|i: int, j: int|
                0 <= i < j < names@.len() ==> (#[trigger] names@[i])@ != (#[trigger] names@[j])@);
            assert(lists_names(self.blobs(), names@));
        }
        Ok(names)
    }
}

} // verus!
