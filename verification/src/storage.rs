//! The storage capability boundary: named blobs with positional reads,
//! atomic whole-blob writes, and appendable streams. The database is
//! parameterized by an implementation of these traits; a directory on a
//! filesystem or an object store can stand behind them.

use vstd::prelude::*;

use crate::IoError;

verus! {

/// The contents of `name`, or the empty sequence if the blob is absent.
pub open spec fn blob_or_empty(blobs: Map<Seq<u8>, Seq<u8>>, name: Seq<u8>) -> Seq<u8> {
    if blobs.contains_key(name) {
        blobs[name]
    } else {
        Seq::empty()
    }
}

/// What a complete listing returns: every name of the namespace,
/// each exactly once.
pub open spec fn lists_names(blobs: Map<Seq<u8>, Seq<u8>>, names: Seq<Vec<u8>>) -> bool {
    &&& forall|i: int| 0 <= i < names.len() ==> blobs.contains_key((#[trigger] names[i])@)
    &&& forall|k: Seq<u8>|
        blobs.contains_key(k) ==> exists|i: int| 0 <= i < names.len() && (#[trigger] names[i])@
            == k
    &&& forall|i: int, j: int|
        0 <= i < j < names.len() ==> (#[trigger] names[i])@ != (#[trigger] names[j])@
}

/// A blob opened for positional random-access reads. The blob behind a
/// reader does not change while the reader is held.
pub trait ReadAt {
    /// The bytes of the blob. An implementation outside the library
    /// is unverified; this default stands for it.
    open spec fn data(&self) -> Seq<u8> {
        Seq::empty()
    }

    /// Read exactly `len` bytes starting at byte `offset`. A read that
    /// would run past the end of the blob fails with `UnexpectedEof`,
    /// and only such a read does; a read within bounds may still fail,
    /// but not with `UnexpectedEof`.
    fn read_exact_at(&self, offset: u64, len: usize) -> (r: Result<Vec<u8>, IoError>)
        ensures
            r matches Ok(b) ==> offset + len <= self.data().len() && b@ == self.data().subrange(
                offset as int,
                offset + len,
            ),
            r matches Err(e) ==> (e == IoError::UnexpectedEof <==> offset + len
                > self.data().len()),
    ;
}

/// A namespace of named blobs.
pub trait Storage: Sized {
    type Reader: ReadAt;

    /// The blobs by name. An implementation outside the library is
    /// unverified; this default stands for it.
    open spec fn blobs(&self) -> Map<Seq<u8>, Seq<u8>> {
        Map::empty()
    }

    /// Implementation-specific validity; every operation preserves it.
    open spec fn inv(&self) -> bool {
        true
    }

    /// Open a blob for positional reads.
    fn read(&self, name: &[u8]) -> (r: Result<Self::Reader, IoError>)
        requires
            self.inv(),
        ensures
            r matches Ok(reader) ==> self.blobs().contains_key(name@) && reader.data()
                == self.blobs()[name@],
    ;

    /// Atomically create or replace a blob: afterwards the image either
    /// stands complete under its name or the namespace is unchanged.
    fn write(&mut self, name: &[u8], value: &[u8]) -> (r: Result<(), IoError>)
        requires
            old(self).inv(),
        ensures
            final(self).inv(),
            r is Ok ==> final(self).blobs() == old(self).blobs().insert(name@, value@),
            r is Err ==> final(self).blobs() == old(self).blobs() || final(self).blobs() == old(
                self,
            ).blobs().insert(name@, value@),
    ;

    /// Append bytes to a blob, creating it empty first if absent. There
    /// is no partial append: on failure the namespace is unchanged.
    fn append(&mut self, name: &[u8], data: &[u8]) -> (r: Result<(), IoError>)
        requires
            old(self).inv(),
        ensures
            final(self).inv(),
            r is Ok ==> final(self).blobs() == old(self).blobs().insert(
                name@,
                blob_or_empty(old(self).blobs(), name@) + data@,
            ),
            r is Err ==> final(self).blobs() == old(self).blobs(),
    ;

    /// Reset a blob to zero length, creating it if absent.
    fn truncate(&mut self, name: &[u8]) -> (r: Result<(), IoError>)
        requires
            old(self).inv(),
        ensures
            final(self).inv(),
            r is Ok ==> final(self).blobs() == old(self).blobs().insert(name@, Seq::empty()),
            r is Err ==> final(self).blobs() == old(self).blobs(),
    ;

    /// Remove a blob; absence is not an error.
    fn delete(&mut self, name: &[u8]) -> (r: Result<(), IoError>)
        requires
            old(self).inv(),
        ensures
            final(self).inv(),
            r is Ok ==> final(self).blobs() == old(self).blobs().remove(name@),
            r is Err ==> final(self).blobs() == old(self).blobs(),
    ;

    /// Enumerate all blob names, each exactly once.
    fn list(&self) -> (r: Result<Vec<Vec<u8>>, IoError>)
        requires
            self.inv(),
        ensures
            r matches Ok(names) ==> lists_names(self.blobs(), names@),
    ;
}

} // verus!
