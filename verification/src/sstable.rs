//! The sorted-string-table binary format: a big-endian entry count, a
//! table of 64-bit entry offsets, and the concatenated length-prefixed
//! entries; and a reader that looks keys up by on-disk binary search.

use vstd::prelude::*;

use crate::codec::be32_decode;
use crate::codec::be64_decode;
use crate::codec::lemma_be32_round_trip;
use crate::codec::lemma_be64_round_trip;
use crate::codec::push_be32;
use crate::codec::push_be64;
use crate::codec::spec_be32;
use crate::codec::spec_be32_decode;
use crate::codec::spec_be64;
use crate::kvmap::bounded_entries;
use crate::kvmap::entries_view;
use crate::kvmap::lemma_map_of_index;
use crate::kvmap::lemma_map_of_key;
use crate::kvmap::lemma_sorted_implies_unique;
use crate::kvmap::map_of;
use crate::kvmap::sorted_by_key;
use crate::order::compare_keys;
use crate::order::lemma_lex_transitive;
use crate::order::lemma_lex_trichotomy;
use crate::order::KeyCmp;
use crate::storage::ReadAt;
use crate::IoError;

verus! {

/// Bytes one entry occupies in the payload region.
pub open spec fn spec_entry_size(e: (Seq<u8>, Seq<u8>)) -> int {
    8 + e.0.len() as int + e.1.len() as int
}

/// One serialized entry: length-prefixed key, length-prefixed value.
pub open spec fn spec_entry_bytes(e: (Seq<u8>, Seq<u8>)) -> Seq<u8> {
    spec_be32(e.0.len() as u32) + e.0 + spec_be32(e.1.len() as u32) + e.1
}

/// Byte offset of entry `i` within the payload region.
pub open spec fn spec_offset(entries: Seq<(Seq<u8>, Seq<u8>)>, i: int) -> int
    decreases i,
{
    if i <= 0 {
        0
    } else {
        spec_offset(entries, i - 1) + spec_entry_size(entries[i - 1])
    }
}

/// The offsets region: one big-endian 64-bit offset per entry.
pub open spec fn spec_offsets_table(entries: Seq<(Seq<u8>, Seq<u8>)>) -> Seq<u8>
    decreases entries.len(),
{
    if entries.len() == 0 {
        Seq::empty()
    } else {
        spec_offsets_table(entries.drop_last()) + spec_be64(
            spec_offset(entries, entries.len() - 1) as u64,
        )
    }
}

/// The payload region: all entries concatenated in order.
pub open spec fn spec_payload(entries: Seq<(Seq<u8>, Seq<u8>)>) -> Seq<u8>
    decreases entries.len(),
{
    if entries.len() == 0 {
        Seq::empty()
    } else {
        spec_payload(entries.drop_last()) + spec_entry_bytes(entries.last())
    }
}

/// The complete table image.
pub open spec fn spec_sstable(entries: Seq<(Seq<u8>, Seq<u8>)>) -> Seq<u8> {
    spec_be32(entries.len() as u32) + spec_offsets_table(entries) + spec_payload(entries)
}

/// `data` is the image of `entries`: sorted, within the format's
/// 32-bit length limits, and addressable by 64-bit offsets.
pub open spec fn wf_image(data: Seq<u8>, entries: Seq<(Seq<u8>, Seq<u8>)>) -> bool {
    &&& sorted_by_key(entries)
    &&& bounded_entries(entries)
    &&& entries.len() < 0x100000000
    &&& data == spec_sstable(entries)
    &&& data.len() <= u64::MAX
}

/// Offsets depend only on the entries before them.
pub proof fn lemma_offset_agree(
    e1: Seq<(Seq<u8>, Seq<u8>)>,
    e2: Seq<(Seq<u8>, Seq<u8>)>,
    i: int,
)
    requires
        0 <= i,
        i <= e1.len(),
        i <= e2.len(),
        forall|j: int| 0 <= j < i ==> e1[j] == e2[j],
    ensures
        spec_offset(e1, i) == spec_offset(e2, i),
    decreases i,
{
    if i > 0 {
        lemma_offset_agree(e1, e2, i - 1);
    }
}

/// Offsets start at zero and grow by the size of each entry passed.
pub proof fn lemma_offset_monotonic(entries: Seq<(Seq<u8>, Seq<u8>)>, i: int, j: int)
    requires
        0 <= i <= j <= entries.len(),
    ensures
        0 <= spec_offset(entries, i),
        spec_offset(entries, i) <= spec_offset(entries, j),
        i < j ==> spec_offset(entries, i) + spec_entry_size(entries[i]) <= spec_offset(entries, j),
    decreases j,
{
    if j > 0 {
        if i <= j - 1 {
            lemma_offset_monotonic(entries, i, j - 1);
        } else {
            lemma_offset_monotonic(entries, i - 1, j - 1);
        }
    }
}

/// The payload's length is the offset past the last entry.
pub proof fn lemma_payload_len(entries: Seq<(Seq<u8>, Seq<u8>)>)
    ensures
        spec_payload(entries).len() == spec_offset(entries, entries.len() as int),
    decreases entries.len(),
{
    if entries.len() > 0 {
        let dl = entries.drop_last();
        lemma_payload_len(dl);
        lemma_offset_agree(dl, entries, entries.len() - 1);
    }
}

/// The offsets region holds eight bytes per entry.
pub proof fn lemma_offsets_table_len(entries: Seq<(Seq<u8>, Seq<u8>)>)
    ensures
        spec_offsets_table(entries).len() == 8 * entries.len(),
    decreases entries.len(),
{
    if entries.len() > 0 {
        lemma_offsets_table_len(entries.drop_last());
    }
}

/// Entry `i`'s bytes sit at its offset within the payload.
pub proof fn lemma_payload_entry(entries: Seq<(Seq<u8>, Seq<u8>)>, i: int)
    requires
        0 <= i < entries.len(),
    ensures
        spec_offset(entries, i) + spec_entry_size(entries[i]) <= spec_payload(entries).len(),
        spec_payload(entries).subrange(
            spec_offset(entries, i),
            spec_offset(entries, i) + spec_entry_size(entries[i]),
        ) == spec_entry_bytes(entries[i]),
    decreases entries.len(),
{
    lemma_payload_len(entries);
    lemma_offset_monotonic(entries, i, entries.len() as int);
    let dl = entries.drop_last();
    let off = spec_offset(entries, i);
    let sz = spec_entry_size(entries[i]);
    if i == entries.len() - 1 {
        lemma_payload_len(dl);
        lemma_offset_agree(dl, entries, i);
        assert(spec_payload(entries).subrange(off, off + sz) =~= spec_entry_bytes(entries[i]));
    } else {
        lemma_payload_entry(dl, i);
        lemma_offset_agree(dl, entries, i);
        lemma_payload_len(dl);
        lemma_offset_monotonic(dl, i, dl.len() as int);
        assert(spec_payload(entries).subrange(off, off + sz) =~= spec_payload(dl).subrange(
            off,
            off + sz,
        ));
    }
}

/// Entry `i`'s offset sits at position `8 i` of the offsets region.
pub proof fn lemma_offsets_table_entry(entries: Seq<(Seq<u8>, Seq<u8>)>, i: int)
    requires
        0 <= i < entries.len(),
    ensures
        spec_offsets_table(entries).subrange(8 * i, 8 * i + 8) == spec_be64(
            spec_offset(entries, i) as u64,
        ),
    decreases entries.len(),
{
    lemma_offsets_table_len(entries);
    let dl = entries.drop_last();
    if i == entries.len() - 1 {
        lemma_offsets_table_len(dl);
        assert(spec_offsets_table(entries).subrange(8 * i, 8 * i + 8) =~= spec_be64(
            spec_offset(entries, i) as u64,
        ));
    } else {
        lemma_offsets_table_entry(dl, i);
        lemma_offset_agree(dl, entries, i);
        lemma_offsets_table_len(dl);
        assert(spec_offsets_table(entries).subrange(8 * i, 8 * i + 8) =~= spec_offsets_table(
            dl,
        ).subrange(8 * i, 8 * i + 8));
    }
}

/// Where each region and field of the image lies.
pub proof fn lemma_sstable_slices(entries: Seq<(Seq<u8>, Seq<u8>)>, i: int)
    requires
        0 <= i < entries.len(),
    ensures
        spec_sstable(entries).len() == 4 + 8 * entries.len() + spec_offset(
            entries,
            entries.len() as int,
        ),
        spec_sstable(entries).subrange(0, 4) == spec_be32(entries.len() as u32),
        spec_sstable(entries).subrange(4 + 8 * i, 4 + 8 * i + 8) == spec_be64(
            spec_offset(entries, i) as u64,
        ),
        spec_sstable(entries).subrange(
            4 + 8 * entries.len() + spec_offset(entries, i),
            4 + 8 * entries.len() + spec_offset(entries, i) + spec_entry_size(entries[i]),
        ) == spec_entry_bytes(entries[i]),
        0 <= spec_offset(entries, i),
        spec_offset(entries, i) + spec_entry_size(entries[i]) <= spec_offset(
            entries,
            entries.len() as int,
        ),
    decreases entries.len(),
{
    lemma_payload_len(entries);
    lemma_offsets_table_len(entries);
    lemma_offset_monotonic(entries, i, entries.len() as int);
    lemma_payload_entry(entries, i);
    lemma_offsets_table_entry(entries, i);
    let data = spec_sstable(entries);
    assert(data.subrange(0, 4) =~= spec_be32(entries.len() as u32));
    assert(data.subrange(4 + 8 * i, 4 + 8 * i + 8) =~= spec_offsets_table(entries).subrange(
        8 * i,
        8 * i + 8,
    ));
    let sect = 4 + 8 * entries.len();
    let off = spec_offset(entries, i);
    let sz = spec_entry_size(entries[i]);
    assert(data.subrange(sect + off, sect + off + sz) =~= spec_payload(entries).subrange(
        off,
        off + sz,
    ));
}

/// Where each field of a serialized entry lies.
pub proof fn lemma_entry_fields(e: (Seq<u8>, Seq<u8>))
    ensures
        spec_entry_bytes(e).len() == spec_entry_size(e),
        spec_entry_bytes(e).subrange(0, 4) == spec_be32(e.0.len() as u32),
        spec_entry_bytes(e).subrange(4, 4 + e.0.len() as int) == e.0,
        spec_entry_bytes(e).subrange(4 + e.0.len() as int, 8 + e.0.len() as int) == spec_be32(
            e.1.len() as u32,
        ),
        spec_entry_bytes(e).subrange(
            8 + e.0.len() as int,
            8 + e.0.len() as int + e.1.len() as int,
        ) == e.1,
{
    let b = spec_entry_bytes(e);
    assert(b.subrange(0, 4) =~= spec_be32(e.0.len() as u32));
    assert(b.subrange(4, 4 + e.0.len() as int) =~= e.0);
    assert(b.subrange(4 + e.0.len() as int, 8 + e.0.len() as int) =~= spec_be32(e.1.len() as u32));
    assert(b.subrange(8 + e.0.len() as int, 8 + e.0.len() as int + e.1.len() as int) =~= e.1);
}


/// Serialize sorted entries into the table image.
pub fn write_sstable(entries: &Vec<(Vec<u8>, Vec<u8>)>) -> (r: Vec<u8>)
    requires
        entries@.len() < 0x100000000,
        bounded_entries(entries_view(entries@)),
    ensures
        r@ == spec_sstable(entries_view(entries@)),
{
    let ghost ev = entries_view(entries@);
    let n = entries.len();
    let mut payload: Vec<u8> = Vec::new();
    let mut offsets: Vec<u64> = Vec::new();
    let mut i: usize = 0;
    proof {
        assert(ev.take(0) =~= Seq::<(Seq<u8>, Seq<u8>)>::empty());
    }
    while i < n
        invariant
            0 <= i <= n,
            n == entries@.len(),
            n < 0x100000000,
            ev == entries_view(entries@),
            bounded_entries(ev),
            payload@ == spec_payload(ev.take(i as int)),
            payload@.len() == spec_offset(ev, i as int),
            offsets@.len() == i,
            forall|j: int| 0 <= j < i ==> offsets@[j] == spec_offset(ev, j),
        decreases n - i,
    {
        offsets.push(payload.len() as u64);
        let e: &(Vec<u8>, Vec<u8>) = &entries[i];
        push_be32(&mut payload, e.0.len() as u32);
        payload.extend_from_slice(e.0.as_slice());
        push_be32(&mut payload, e.1.len() as u32);
        payload.extend_from_slice(e.1.as_slice());
        proof {
            let next = ev.take(i + 1);
            assert(next.drop_last() =~= ev.take(i as int));
            assert(next.last() == ev[i as int]);
            assert(ev[i as int] == (e.0@, e.1@));
            assert(payload@ =~= spec_payload(ev.take(i as int)) + spec_entry_bytes(ev[i as int]));
        }
        i = i + 1;
    }
    let mut out: Vec<u8> = Vec::new();
    push_be32(&mut out, n as u32);
    let mut j: usize = 0;
    proof {
        assert(ev.take(0) =~= Seq::<(Seq<u8>, Seq<u8>)>::empty());
        assert(out@ =~= spec_be32(n as u32) + spec_offsets_table(ev.take(0)));
    }
    while j < n
        invariant
            0 <= j <= n,
            n == offsets@.len(),
            ev.len() == n,
            n < 0x100000000,
            forall|jj: int| 0 <= jj < n ==> offsets@[jj] == spec_offset(ev, jj),
            out@ == spec_be32(n as u32) + spec_offsets_table(ev.take(j as int)),
        decreases n - j,
    {
        push_be64(&mut out, offsets[j]);
        proof {
            let next = ev.take(j + 1);
            assert(next.drop_last() =~= ev.take(j as int));
            lemma_offset_agree(next, ev, j as int);
            assert(spec_offset(next, j as int) == offsets@[j as int]);
            assert(spec_offset(next, j as int) as u64 == offsets@[j as int]);
            assert(out@ =~= spec_be32(n as u32) + spec_offsets_table(next));
        }
        j = j + 1;
    }
    out.extend_from_slice(payload.as_slice());
    proof {
        assert(ev.take(n as int) =~= ev);
        assert(out@ =~= spec_sstable(ev));
    }
    out
}

/// An open sorted string table: a positional reader over its image and
/// the cached entry count.
pub struct SSTableReader<R: ReadAt> {
    pub file: R,
    pub size: usize,
    pub entries: Ghost<Seq<(Seq<u8>, Seq<u8>)>>,
}

impl<R: ReadAt> SSTableReader<R> {
    /// The reader's blob is the image of its entries.
    pub open spec fn wf(self) -> bool {
        &&& wf_image(self.file.data(), self.entries@)
        &&& self.size == self.entries@.len()
    }

    /// The map the table holds.
    pub open spec fn as_map(self) -> Map<Seq<u8>, Seq<u8>> {
        map_of(self.entries@)
    }

    /// Open a table by reading its entry count. If the blob is a
    /// well-formed image, the reader is well-formed; over any blob,
    /// the cached count is the big-endian header word.
    pub fn open(file: R) -> (r: Result<SSTableReader<R>, IoError>)
        ensures
            r matches Ok(t) ==> {
                &&& t.file == file
                &&& file.data().len() >= 4
                &&& t.size == spec_be32_decode(file.data().subrange(0, 4))
                &&& (exists|entries: Seq<(Seq<u8>, Seq<u8>)>|
                    wf_image(file.data(), entries)) ==> t.wf()
            },
    {
        let ghost entries = choose|entries: Seq<(Seq<u8>, Seq<u8>)>|
            wf_image(file.data(), entries);
        Self::open_at(file, Ghost(entries))
    }

    /// Open a table whose image is known to hold `entries`.
    pub fn open_with(file: R, Ghost(entries): Ghost<Seq<(Seq<u8>, Seq<u8>)>>) -> (r: Result<
        SSTableReader<R>,
        IoError,
    >)
        requires
            wf_image(file.data(), entries),
        ensures
            r matches Ok(t) ==> t.wf() && t.entries@ == entries && t.file.data() == file.data(),
    {
        Self::open_at(file, Ghost(entries))
    }

    fn open_at(file: R, Ghost(entries): Ghost<Seq<(Seq<u8>, Seq<u8>)>>) -> (r: Result<
        SSTableReader<R>,
        IoError,
    >)
        ensures
            r matches Ok(t) ==> {
                &&& t.file == file
                &&& t.entries@ == entries
                &&& file.data().len() >= 4
                &&& t.size == spec_be32_decode(file.data().subrange(0, 4))
                &&& (wf_image(file.data(), entries) ==> t.wf())
            },
    {
        let header = match file.read_exact_at(0, 4) {
            Ok(b) => b,
            Err(e) => {
                return Err(e);
            },
        };
        let count = be32_decode(header.as_slice());
        proof {
            if wf_image(file.data(), entries) {
                if entries.len() > 0 {
                    lemma_sstable_slices(entries, 0);
                } else {
                    assert(file.data().subrange(0, 4) =~= spec_be32(entries.len() as u32));
                }
                lemma_be32_round_trip(entries.len() as u32);
                assert(count == entries.len());
            }
        }
        Ok(SSTableReader { file, size: count as usize, entries: Ghost(entries) })
    }

    /// Read entry `i` from disk. If the blob is a well-formed image,
    /// the entry comes back exactly; reads of a malformed blob fail or
    /// return bytes nothing is promised about.
    pub fn read_entry(&self, i: usize) -> (r: Result<(Vec<u8>, Vec<u8>), IoError>)
        requires
            i < self.size,
            self.size < 0x100000000,
        ensures
            self.wf() ==> (r matches Ok(e) ==> (e.0@, e.1@) == self.entries@[i as int]),
    {
        let ghost ev = self.entries@;
        let ghost data = self.file.data();
        let ghost e = ev[i as int];
        let ghost off_spec = spec_offset(ev, i as int);
        let ghost sect_spec = 4 + 8 * ev.len();
        proof {
            if self.wf() {
                lemma_sstable_slices(ev, i as int);
                lemma_entry_fields(e);
            }
        }
        let off_bytes = match self.file.read_exact_at(4 + (i as u64) * 8, 8) {
            Ok(b) => b,
            Err(err) => {
                return Err(err);
            },
        };
        let off = be64_decode(off_bytes.as_slice());
        proof {
            if self.wf() {
                lemma_be64_round_trip(off_spec as u64);
                assert(off == off_spec);
            }
        }
        let sect: u64 = 4 + 8 * (self.size as u64);
        if off > u64::MAX - sect {
            return Err(IoError::Other);
        }
        proof {
            if self.wf() {
                assert(sect == sect_spec);
                assert(sect_spec + off_spec + spec_entry_size(e) <= data.len());
                assert(data.subrange(sect_spec + off_spec, sect_spec + off_spec + 4)
                    =~= data.subrange(
                    sect_spec + off_spec,
                    sect_spec + off_spec + spec_entry_size(e),
                ).subrange(0, 4));
            }
        }
        let klen_bytes = match self.file.read_exact_at(sect + off, 4) {
            Ok(b) => b,
            Err(err) => {
                return Err(err);
            },
        };
        let klen = be32_decode(klen_bytes.as_slice());
        proof {
            if self.wf() {
                lemma_be32_round_trip(e.0.len() as u32);
                assert(klen == e.0.len());
                assert(data.subrange(
                    sect_spec + off_spec + 4,
                    sect_spec + off_spec + 4 + e.0.len() as int,
                ) =~= data.subrange(
                    sect_spec + off_spec,
                    sect_spec + off_spec + spec_entry_size(e),
                ).subrange(4, 4 + e.0.len() as int));
            }
        }
        if sect + off > u64::MAX - 4 - (klen as u64) {
            return Err(IoError::Other);
        }
        let key = match self.file.read_exact_at(sect + off + 4, klen as usize) {
            Ok(b) => b,
            Err(err) => {
                return Err(err);
            },
        };
        proof {
            if self.wf() {
                assert(key@ == e.0);
                assert(data.subrange(
                    sect_spec + off_spec + 4 + e.0.len() as int,
                    sect_spec + off_spec + 8 + e.0.len() as int,
                ) =~= data.subrange(
                    sect_spec + off_spec,
                    sect_spec + off_spec + spec_entry_size(e),
                ).subrange(4 + e.0.len() as int, 8 + e.0.len() as int));
            }
        }
        let base: u64 = sect + off + 4 + (klen as u64);
        if base > u64::MAX - 4 {
            return Err(IoError::Other);
        }
        let vlen_bytes = match self.file.read_exact_at(base, 4) {
            Ok(b) => b,
            Err(err) => {
                return Err(err);
            },
        };
        let vlen = be32_decode(vlen_bytes.as_slice());
        proof {
            if self.wf() {
                lemma_be32_round_trip(e.1.len() as u32);
                assert(vlen == e.1.len());
                assert(data.subrange(
                    sect_spec + off_spec + 8 + e.0.len() as int,
                    sect_spec + off_spec + 8 + e.0.len() as int + e.1.len() as int,
                ) =~= data.subrange(
                    sect_spec + off_spec,
                    sect_spec + off_spec + spec_entry_size(e),
                ).subrange(8 + e.0.len() as int, 8 + e.0.len() as int + e.1.len() as int));
            }
        }
        let value = match self.file.read_exact_at(base + 4, vlen as usize) {
            Ok(b) => b,
            Err(err) => {
                return Err(err);
            },
        };
        proof {
            if self.wf() {
                assert(value@ == e.1);
            }
        }
        Ok((key, value))
    }

    /// Point lookup by on-disk binary search over the offsets table.
    /// If the blob is a well-formed image the result is exactly the
    /// table's map at the key; corruption yields absent or an error,
    /// never a crash.
    #[verifier::rlimit(60)]
    #[verifier::loop_isolation(false)]
    pub fn get(&self, key: &[u8]) -> (r: Result<Option<Vec<u8>>, IoError>)
        ensures
            self.wf() ==> (r matches Ok(v) ==> match v {
                Some(value) => self.as_map().contains_key(key@)
                    && value@ == self.as_map()[key@],
                None => !self.as_map().contains_key(key@),
            }),
            self.wf() && self.entries@.len() == 0 ==> r == Ok::<Option<Vec<u8>>, IoError>(None),
    {
        let ghost ev = self.entries@;
        proof {
            if self.wf() {
                lemma_sorted_implies_unique(ev);
                lemma_map_of_key(ev, key@);
            }
        }
        if self.size == 0 {
            return Ok(None);
        }
        if (self.size as u64) >= 0x100000000u64 {
            return Err(IoError::Other);
        }
        let mut base: usize = 0;
        let mut size: usize = self.size;
        while size > 1
            invariant
                1 <= size,
                base + size <= self.size,
                self.wf() ==> forall|j: int|
                    0 <= j < ev.len() && (#[trigger] ev[j]).0 == key@ ==> base <= j < base
                        + size,
            decreases size,
        {
            let half = size / 2;
            let mid = base + half;
            let e = match self.read_entry(mid) {
                Ok(e) => e,
                Err(err) => {
                    return Err(err);
                },
            };
            match compare_keys(e.0.as_slice(), key) {
                KeyCmp::Equal => {
                    proof {
                        if self.wf() {
                            lemma_map_of_index(ev, mid as int);
                        }
                    }
                    return Ok(Some(e.1));
                },
                KeyCmp::Less => {
                    proof {
                        if self.wf() {
                            assert forall|j: int|
                                0 <= j < ev.len() && (#[trigger] ev[j]).0 == key@ implies mid
                                < j by {
                                lemma_lex_trichotomy(ev[mid as int].0, key@);
                                if j < mid {
                                    lemma_lex_transitive(ev[j].0, ev[mid as int].0, key@);
                                    lemma_lex_trichotomy(ev[j].0, key@);
                                }
                            }
                        }
                    }
                    base = mid;
                    size = size - half;
                },
                KeyCmp::Greater => {
                    proof {
                        if self.wf() {
                            assert forall|j: int|
                                0 <= j < ev.len() && (#[trigger] ev[j]).0 == key@ implies j
                                < mid by {
                                lemma_lex_trichotomy(ev[mid as int].0, key@);
                                if j > mid {
                                    lemma_lex_transitive(key@, ev[mid as int].0, ev[j].0);
                                    lemma_lex_trichotomy(ev[j].0, key@);
                                }
                            }
                        }
                    }
                    size = size - half;
                },
            }
        }
        let e = match self.read_entry(base) {
            Ok(e) => e,
            Err(err) => {
                return Err(err);
            },
        };
        match compare_keys(e.0.as_slice(), key) {
            KeyCmp::Equal => {
                proof {
                    if self.wf() {
                        lemma_map_of_index(ev, base as int);
                    }
                }
                Ok(Some(e.1))
            },
            _ => {
                proof {
                    if self.wf() {
                        lemma_lex_trichotomy(ev[base as int].0, key@);
                        if exists|j: int| 0 <= j < ev.len() && (#[trigger] ev[j]).0 == key@ {
                            let j = choose|j: int|
                                0 <= j < ev.len() && (#[trigger] ev[j]).0 == key@;
                            assert(j == base);
                            assert(false);
                        }
                    }
                }
                Ok(None)
            },
        }
    }
}


/// Table lookup law: a table written from sorted entries serves `v`
/// under `k` exactly when `(k, v)` is one of those entries. A reader's
/// `get` serves `map_of` of the entries whose image it reads.
pub proof fn lemma_sstable_lookup(entries: Seq<(Seq<u8>, Seq<u8>)>, k: Seq<u8>, v: Seq<u8>)
    requires
        sorted_by_key(entries),
    ensures
        (map_of(entries).contains_key(k) && map_of(entries)[k] == v) <==> (exists|i: int|
            0 <= i < entries.len() && #[trigger] entries[i] == (k, v)),
{
    lemma_sorted_implies_unique(entries);
    lemma_map_of_key(entries, k);
    if map_of(entries).contains_key(k) && map_of(entries)[k] == v {
        let i = choose|i: int| 0 <= i < entries.len() && entries[i].0 == k;
        lemma_map_of_index(entries, i);
        assert(entries[i] == (k, v));
    }
    if exists|i: int| 0 <= i < entries.len() && #[trigger] entries[i] == (k, v) {
        let i = choose|i: int| 0 <= i < entries.len() && #[trigger] entries[i] == (k, v);
        lemma_map_of_index(entries, i);
    }
}

} // verus!
