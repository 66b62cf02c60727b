//! The database: a write-ahead log and an in-memory table in front of
//! immutable sorted string tables. Writes are logged before they touch
//! the table; reads consult the table first and then the tables newest
//! first; a maintenance pass materializes the table and truncates the
//! log.

use vstd::prelude::*;
use vstd::slice::slice_to_vec;

use crate::kvmap::bounded_entries;
use crate::kvmap::bounded_map;
use crate::kvmap::lemma_bounded_map_entries;
use crate::kvmap::lemma_sorted_implies_unique;
use crate::kvmap::map_of;
use crate::kvmap::sorted_by_key;
use crate::mem_table::MemTable;
use crate::names::ends_sst;
use crate::names::format_sstable_name;
use crate::names::is_sst_name;
use crate::names::parse_name_bytes;
use crate::names::spec_format_name;
use crate::names::spec_parse_name;
use crate::names::lemma_format_name_ok;
use crate::sstable::spec_sstable;
use crate::sstable::wf_image;
use crate::sstable::write_sstable;
use crate::sstable::SSTableReader;
use crate::storage::blob_or_empty;
use crate::storage::ReadAt;
use crate::storage::Storage;
use crate::wal::apply_record;
use crate::wal::encode_delete_record;
use crate::wal::encode_put_record;
use crate::wal::encode_table_end_record;
use crate::wal::encode_table_start_record;
use crate::wal::lemma_replay_append;
use crate::wal::spec_record_bytes;
use crate::wal::spec_replay;
use crate::wal::ReplayResult;
use crate::wal::WalRecord;
use crate::Error;
use crate::IoError;

verus! {

/// The WAL's blob name.
pub open spec fn spec_wal_name() -> Seq<u8> {
    seq![119u8, 97u8, 108u8]
}

/// The WAL's blob name as bytes.
pub fn wal_name() -> (r: Vec<u8>)
    ensures
        r@ == spec_wal_name(),
{
    let mut v: Vec<u8> = Vec::new();
    v.push(119);
    v.push(97);
    v.push(108);
    proof {
        assert(v@ =~= spec_wal_name());
    }
    v
}

/// Later maps shadow earlier ones.
pub open spec fn overlay(maps: Seq<Map<Seq<u8>, Seq<u8>>>) -> Map<Seq<u8>, Seq<u8>>
    decreases maps.len(),
{
    if maps.len() == 0 {
        Map::empty()
    } else {
        overlay(maps.drop_last()).union_prefer_right(maps.last())
    }
}

/// A key is in the overlay exactly when some layer holds it.
pub proof fn lemma_overlay_key(maps: Seq<Map<Seq<u8>, Seq<u8>>>, k: Seq<u8>)
    ensures
        overlay(maps).contains_key(k) <==> (exists|i: int|
            0 <= i < maps.len() && (#[trigger] maps[i]).contains_key(k)),
    decreases maps.len(),
{
    if maps.len() > 0 {
        let dl = maps.drop_last();
        lemma_overlay_key(dl, k);
        if maps.last().contains_key(k) {
            assert(maps[maps.len() - 1].contains_key(k));
        } else if overlay(maps).contains_key(k) {
            let i = choose|i: int| 0 <= i < dl.len() && (#[trigger] dl[i]).contains_key(k);
            assert(maps[i].contains_key(k));
        } else if exists|i: int| 0 <= i < maps.len() && (#[trigger] maps[i]).contains_key(k) {
            let i = choose|i: int| 0 <= i < maps.len() && (#[trigger] maps[i]).contains_key(k);
            assert(dl[i].contains_key(k));
        }
    }
}

/// The newest layer holding a key decides its value.
pub proof fn lemma_overlay_newest(maps: Seq<Map<Seq<u8>, Seq<u8>>>, k: Seq<u8>, i: int)
    requires
        0 <= i < maps.len(),
        maps[i].contains_key(k),
        forall|j: int| i < j < maps.len() ==> !(#[trigger] maps[j]).contains_key(k),
    ensures
        overlay(maps).contains_key(k),
        overlay(maps)[k] == maps[i][k],
    decreases maps.len(),
{
    let dl = maps.drop_last();
    if i == maps.len() - 1 {
    } else {
        assert(!maps[maps.len() - 1].contains_key(k));
        assert(forall|j: int| i < j < dl.len() ==> !(#[trigger] dl[j]).contains_key(k));
        lemma_overlay_newest(dl, k, i);
    }
}

/// One open table of the registry: its level and id, and its reader.
pub struct TableEntry<R: ReadAt> {
    pub level: u32,
    pub id: u32,
    pub reader: SSTableReader<R>,
}

/// `(level, id)` order, oldest first.
pub open spec fn pair_le(a: (u32, u32), b: (u32, u32)) -> bool {
    a.0 < b.0 || (a.0 == b.0 && a.1 <= b.1)
}

/// An ordered key-value store: a log-structured merge tree over a
/// storage backend.
pub struct Database<S: Storage> {
    pub storage: S,
    pub sstables: Vec<TableEntry<S::Reader>>,
    pub mem_table: MemTable,
}

impl<S: Storage> Database<S> {
    /// The maps the registered tables hold, oldest first.
    pub open spec fn table_maps(self) -> Seq<Map<Seq<u8>, Seq<u8>>> {
        self.sstables@.map(|i: int, t: TableEntry<S::Reader>| map_of(t.reader.entries@))
    }

    /// Everything the database serves: the in-memory table over the
    /// registered tables, newest first.
    pub open spec fn db_map(self) -> Map<Seq<u8>, Seq<u8>> {
        overlay(self.table_maps()).union_prefer_right(self.mem_table@)
    }

    /// The bytes of the WAL blob.
    pub open spec fn wal_bytes(self) -> Seq<u8> {
        blob_or_empty(self.storage.blobs(), spec_wal_name())
    }

    /// Every registered table's blob is a well-formed image of its
    /// entries.
    pub open spec fn tables_wf(self) -> bool {
        forall|i: int|
            0 <= i < self.sstables@.len() ==> (#[trigger] self.sstables@[i]).reader.wf()
    }

    /// The database invariant: the backend is valid, the in-memory
    /// table is sorted and within the format's length limits, the
    /// registry is ordered oldest first, and the WAL replays cleanly
    /// to the in-memory table's contents.
    pub open spec fn wf(self) -> bool {
        &&& self.storage.inv()
        &&& self.mem_table.wf()
        &&& bounded_map(self.mem_table@)
        &&& forall|i: int, j: int|
            0 <= i < j < self.sstables@.len() ==> pair_le(
                ((#[trigger] self.sstables@[i]).level, self.sstables@[i].id),
                ((#[trigger] self.sstables@[j]).level, self.sstables@[j].id),
            )
        &&& spec_replay(self.wal_bytes()) is Valid
    }

    /// Log a put, then apply it to the in-memory table. On failure
    /// nothing reaches the in-memory table.
    pub fn put(&mut self, key: &[u8], value: &[u8]) -> (r: Result<(), IoError>)
        requires
            old(self).wf(),
            key@.len() < 0x100000000,
            value@.len() < 0x100000000,
        ensures
            final(self).wf(),
            final(self).sstables == old(self).sstables,
            final(self).tables_wf() == old(self).tables_wf(),
            r is Ok ==> final(self).mem_table@ == old(self).mem_table@.insert(key@, value@),
            r is Ok ==> final(self).db_map() == old(self).db_map().insert(key@, value@),
            r is Ok ==> final(self).wal_bytes() == old(self).wal_bytes() + spec_record_bytes(
                WalRecord::Put { key: key@, value: value@ },
            ),
            r is Ok ==> final(self).storage.blobs() == old(self).storage.blobs().insert(
                spec_wal_name(),
                old(self).wal_bytes() + spec_record_bytes(
                    WalRecord::Put { key: key@, value: value@ },
                ),
            ),
            r is Err ==> final(self).mem_table@ == old(self).mem_table@
                && final(self).storage.blobs() == old(self).storage.blobs(),
    {
        let record = encode_put_record(key, value);
        let name = wal_name();
        let ghost rec = WalRecord::Put { key: key@, value: value@ };
        match self.storage.append(name.as_slice(), record.as_slice()) {
            Ok(()) => {},
            Err(e) => {
                return Err(e);
            },
        }
        proof {
            lemma_replay_append(old(self).wal_bytes(), rec);
        }
        self.mem_table.put(key, slice_to_vec(value));
        proof {
            assert forall|k: Seq<u8>| #[trigger]
                self.mem_table@.contains_key(k) implies k.len() < 0x100000000
                && self.mem_table@[k].len() < 0x100000000 by {
                if k != key@ {
                    assert(old(self).mem_table@.contains_key(k) && old(self).mem_table@[k]
                        == self.mem_table@[k]);
                }
            }
            lemma_union_insert_right(
                overlay(self.table_maps()),
                old(self).mem_table@,
                key@,
                value@,
            );
        }
        Ok(())
    }

    /// Log a delete, then apply it to the in-memory table. On failure
    /// nothing reaches the in-memory table.
    pub fn delete(&mut self, key: &[u8]) -> (r: Result<(), IoError>)
        requires
            old(self).wf(),
            key@.len() < 0x100000000,
        ensures
            final(self).wf(),
            final(self).sstables == old(self).sstables,
            final(self).tables_wf() == old(self).tables_wf(),
            r is Ok ==> final(self).mem_table@ == old(self).mem_table@.remove(key@),
            r is Ok ==> final(self).wal_bytes() == old(self).wal_bytes() + spec_record_bytes(
                WalRecord::Delete { key: key@ },
            ),
            r is Err ==> final(self).mem_table@ == old(self).mem_table@
                && final(self).storage.blobs() == old(self).storage.blobs(),
    {
        let record = encode_delete_record(key);
        let name = wal_name();
        let ghost rec = WalRecord::Delete { key: key@ };
        match self.storage.append(name.as_slice(), record.as_slice()) {
            Ok(()) => {},
            Err(e) => {
                return Err(e);
            },
        }
        proof {
            lemma_replay_append(old(self).wal_bytes(), rec);
        }
        self.mem_table.delete(key);
        proof {
            assert forall|k: Seq<u8>| #[trigger]
                self.mem_table@.contains_key(k) implies k.len() < 0x100000000
                && self.mem_table@[k].len() < 0x100000000 by {
                assert(old(self).mem_table@.contains_key(k) && old(self).mem_table@[k]
                    == self.mem_table@[k]);
            }
        }
        Ok(())
    }

    /// Look a key up: the in-memory table first, then the registered
    /// tables newest first.
    #[verifier::rlimit(60)]
    #[verifier::loop_isolation(false)]
    pub fn get(&mut self, key: &[u8]) -> (r: Result<Option<Vec<u8>>, IoError>)
        requires
            old(self).wf(),
        ensures
            *final(self) == *old(self),
            r matches Ok(v) ==> (old(self).tables_wf() ==> match v {
                Some(value) => old(self).db_map().contains_key(key@)
                    && value@ == old(self).db_map()[key@],
                None => !old(self).db_map().contains_key(key@),
            }),
            old(self).mem_table@.contains_key(key@) ==> (r matches Ok(Some(value)) && value@
                == old(self).mem_table@[key@]),
            old(self).sstables@.len() == 0 ==> r is Ok,
    {
        let ghost maps = self.table_maps();
        match self.mem_table.get(key) {
            Some(v) => {
                let out = slice_to_vec(v);
                proof {
                    lemma_union_right(overlay(maps), self.mem_table@, key@);
                }
                return Ok(Some(out));
            },
            None => {},
        }
        let n = self.sstables.len();
        let mut i: usize = n;
        while i > 0
            invariant
                0 <= i <= n,
                self.tables_wf() ==> forall|j: int|
                    i <= j < n ==> !(#[trigger] maps[j]).contains_key(key@),
            decreases i,
        {
            i = i - 1;
            let t: &SSTableReader<S::Reader> = &self.sstables[i].reader;
            proof {
                if self.tables_wf() {
                    assert(self.sstables@[i as int].reader.wf());
                    assert(maps[i as int] == t.as_map());
                }
            }
            match t.get(key) {
                Ok(Some(v)) => {
                    proof {
                        if self.tables_wf() {
                            lemma_overlay_newest(maps, key@, i as int);
                            lemma_union_left(overlay(maps), self.mem_table@, key@);
                        }
                    }
                    return Ok(Some(v));
                },
                Ok(None) => {},
                Err(e) => {
                    return Err(e);
                },
            }
        }
        proof {
            if self.tables_wf() {
                lemma_overlay_key(maps, key@);
                lemma_union_none(overlay(maps), self.mem_table@, key@);
            }
        }
        Ok(None)
    }
}

/// Inserting into the right map inserts into the union.
proof fn lemma_union_insert_right(
    a: Map<Seq<u8>, Seq<u8>>,
    b: Map<Seq<u8>, Seq<u8>>,
    k: Seq<u8>,
    v: Seq<u8>,
)
    ensures
        a.union_prefer_right(b.insert(k, v)) == a.union_prefer_right(b).insert(k, v),
{
    assert(a.union_prefer_right(b.insert(k, v)) =~= a.union_prefer_right(b).insert(k, v));
}

/// A key of the right map wins in the union.
proof fn lemma_union_right(a: Map<Seq<u8>, Seq<u8>>, b: Map<Seq<u8>, Seq<u8>>, k: Seq<u8>)
    requires
        b.contains_key(k),
    ensures
        a.union_prefer_right(b).contains_key(k),
        a.union_prefer_right(b)[k] == b[k],
{
}

/// A key only in the left map takes its value from the left.
proof fn lemma_union_left(a: Map<Seq<u8>, Seq<u8>>, b: Map<Seq<u8>, Seq<u8>>, k: Seq<u8>)
    requires
        a.contains_key(k),
        !b.contains_key(k),
    ensures
        a.union_prefer_right(b).contains_key(k),
        a.union_prefer_right(b)[k] == a[k],
{
}

/// A key in neither map is not in the union.
proof fn lemma_union_none(a: Map<Seq<u8>, Seq<u8>>, b: Map<Seq<u8>, Seq<u8>>, k: Seq<u8>)
    requires
        !a.contains_key(k),
        !b.contains_key(k),
    ensures
        !a.union_prefer_right(b).contains_key(k),
{
}


/// Inserting a map that holds `k` nowhere new leaves lookups at `k`
/// alone.
proof fn lemma_overlay_insert(
    maps: Seq<Map<Seq<u8>, Seq<u8>>>,
    pos: int,
    m0: Map<Seq<u8>, Seq<u8>>,
    k: Seq<u8>,
)
    requires
        0 <= pos <= maps.len(),
        !m0.contains_key(k),
    ensures
        overlay(maps.insert(pos, m0)).contains_key(k) == overlay(maps).contains_key(k),
        overlay(maps).contains_key(k) ==> overlay(maps.insert(pos, m0))[k] == overlay(maps)[k],
    decreases maps.len(),
{
    let maps2 = maps.insert(pos, m0);
    if pos == maps.len() {
        assert(maps2.drop_last() =~= maps);
        assert(maps2.last() == m0);
    } else {
        assert(maps2.last() == maps.last());
        assert(maps2.drop_last() =~= maps.drop_last().insert(pos, m0));
        lemma_overlay_insert(maps.drop_last(), pos, m0, k);
    }
}

/// A layer that shadows nothing beyond the topmost map may be slid in
/// anywhere without changing what is served.
proof fn lemma_overlay_shadowed(maps: Seq<Map<Seq<u8>, Seq<u8>>>, pos: int, mem: Map<Seq<u8>, Seq<u8>>)
    requires
        0 <= pos <= maps.len(),
    ensures
        overlay(maps.insert(pos, mem)).union_prefer_right(mem) == overlay(maps).union_prefer_right(
            mem,
        ),
{
    let a = overlay(maps.insert(pos, mem)).union_prefer_right(mem);
    let b = overlay(maps).union_prefer_right(mem);
    assert forall|k: Seq<u8>| a.contains_key(k) == b.contains_key(k) by {
        if !mem.contains_key(k) {
            lemma_overlay_insert(maps, pos, mem, k);
        }
    }
    assert forall|k: Seq<u8>| b.contains_key(k) implies a[k] == b[k] by {
        if !mem.contains_key(k) {
            lemma_overlay_insert(maps, pos, mem, k);
        }
    }
    assert(a =~= b);
}

/// Insert an open table at its place in the `(level, id)` order.
fn insert_table<R: ReadAt>(
    tables: &mut Vec<TableEntry<R>>,
    level: u32,
    id: u32,
    t: SSTableReader<R>,
) -> (pos: usize)
    requires
        forall|i: int, j: int|
            0 <= i < j < old(tables)@.len() ==> pair_le(
                ((#[trigger] old(tables)@[i]).level, old(tables)@[i].id),
                ((#[trigger] old(tables)@[j]).level, old(tables)@[j].id),
            ),
    ensures
        forall|i: int, j: int|
            0 <= i < j < final(tables)@.len() ==> pair_le(
                ((#[trigger] final(tables)@[i]).level, final(tables)@[i].id),
                ((#[trigger] final(tables)@[j]).level, final(tables)@[j].id),
            ),
        0 <= pos <= old(tables)@.len(),
        final(tables)@ == old(tables)@.insert(pos as int, TableEntry { level, id, reader: t }),
{
    let n = tables.len();
    let mut pos: usize = 0;
    while pos < n && (tables[pos].level < level || (tables[pos].level == level && tables[pos].id
        <= id))
        invariant
            0 <= pos <= n,
            n == tables@.len(),
            *tables == *old(tables),
            forall|j: int|
                0 <= j < pos ==> pair_le(
                    ((#[trigger] tables@[j]).level, tables@[j].id),
                    (level, id),
                ),
        decreases n - pos,
    {
        pos = pos + 1;
    }
    let ghost before = tables@;
    let ghost entry = TableEntry { level, id, reader: t };
    proof {
        if (pos as int) < before.len() {
            assert(pair_le((level, id), (before[pos as int].level, before[pos as int].id)));
        }
    }
    tables.insert(pos, TableEntry { level, id, reader: t });
    proof {
        assert(tables@ == before.insert(pos as int, entry));
        assert(forall|x: int| 0 <= x < pos ==> #[trigger] tables@[x] == before[x]);
        assert(tables@[pos as int] == entry);
        assert(forall|x: int|
            pos < x < tables@.len() ==> #[trigger] tables@[x] == before[x - 1]);
        assert forall|i: int, j: int| 0 <= i < j < tables@.len() implies pair_le(
            ((tables@[i]).level, tables@[i].id),
            ((tables@[j]).level, tables@[j].id),
        ) by {
            if i < pos && j > pos {
                assert(pair_le(
                    (before[i].level, before[i].id),
                    (before[j - 1].level, before[j - 1].id),
                ));
            }
            if i == pos && j > pos {
                assert(pair_le((level, id), (before[pos as int].level, before[pos as int].id)));
                assert(pair_le(
                    (before[pos as int].level, before[pos as int].id),
                    (before[j - 1].level, before[j - 1].id),
                ));
            }
        }
    }
    pos
}

/// The id the next level-1 table gets: one past the largest level-1
/// id registered, zero when none is.
pub open spec fn spec_next_table_id<R: ReadAt>(tables: Seq<TableEntry<R>>) -> int
    decreases tables.len(),
{
    if tables.len() == 0 {
        0
    } else {
        let prev = spec_next_table_id(tables.drop_last());
        if tables.last().level == 1 && tables.last().id >= prev {
            tables.last().id + 1
        } else {
            prev
        }
    }
}

/// Level 1 has no id left to assign.
pub open spec fn level_ids_exhausted<R: ReadAt>(tables: Seq<TableEntry<R>>) -> bool {
    exists|i: int|
        0 <= i < tables.len() && (#[trigger] tables[i]).level == 1 && tables[i].id == u32::MAX
}

/// Pick the id for the next level-1 table.
fn next_level1_id<R: ReadAt>(tables: &Vec<TableEntry<R>>) -> (r: Result<u32, IoError>)
    ensures
        r matches Ok(v) ==> v == spec_next_table_id(tables@) && !level_ids_exhausted(tables@),
        r is Err ==> r == Err::<u32, IoError>(IoError::Other) && level_ids_exhausted(tables@),
{
    let n = tables.len();
    let mut new_id: u32 = 0;
    let mut i: usize = 0;
    while i < n
        invariant
            0 <= i <= n,
            n == tables@.len(),
            new_id == spec_next_table_id(tables@.take(i as int)),
            forall|j: int|
                0 <= j < i ==> !((#[trigger] tables@[j]).level == 1 && tables@[j].id
                    == u32::MAX),
        decreases n - i,
    {
        let e_level = tables[i].level;
        let e_id = tables[i].id;
        proof {
            assert(tables@.take(i + 1).drop_last() =~= tables@.take(i as int));
            assert(tables@.take(i + 1).last() == tables@[i as int]);
        }
        if e_level == 1 && e_id >= new_id {
            if e_id == u32::MAX {
                return Err(IoError::Other);
            }
            new_id = e_id + 1;
        }
        i = i + 1;
    }
    proof {
        assert(tables@.take(n as int) =~= tables@);
    }
    Ok(new_id)
}

impl<S: Storage> Database<S> {
    /// Materialize the in-memory table as a new level-1 table, then
    /// truncate the WAL. What the database serves does not change.
    #[verifier::rlimit(100)]
    #[verifier::spinoff_prover]
    pub fn maintain(&mut self) -> (r: Result<(), IoError>)
        requires
            old(self).wf(),
        ensures
            final(self).wf(),
            old(self).tables_wf() ==> final(self).tables_wf(),
            final(self).mem_table@ == old(self).mem_table@,
            final(self).db_map() == old(self).db_map(),
            r is Ok ==> final(self).wal_bytes() == Seq::<u8>::empty(),
            r is Ok ==> exists|pos: int, e: TableEntry<S::Reader>|
                {
                    &&& 0 <= pos <= old(self).sstables@.len()
                    &&& final(self).sstables@ == #[trigger] old(self).sstables@.insert(pos, e)
                    &&& e.level == 1
                    &&& e.id == spec_next_table_id(old(self).sstables@)
                    &&& e.reader.entries@ == old(self).mem_table.entries_view()
                    &&& e.reader.wf()
                    &&& e.reader.file.data() == spec_sstable(old(self).mem_table.entries_view())
                },
            r is Ok ==> final(self).storage.blobs().contains_key(
                spec_format_name(1, spec_next_table_id(old(self).sstables@) as u32),
            ) && final(self).storage.blobs()[spec_format_name(
                1,
                spec_next_table_id(old(self).sstables@) as u32,
            )] == spec_sstable(old(self).mem_table.entries_view()),
            level_ids_exhausted(old(self).sstables@) ==> r == Err::<(), IoError>(IoError::Other)
                && *final(self) == *old(self),
            !level_ids_exhausted(old(self).sstables@) && old(self).mem_table.entries@.len()
                >= 0x100000000 ==> r == Err::<(), IoError>(IoError::Other) && *final(self)
                == *old(self),
    {
        let ghost ev = self.mem_table.entries_view();
        let new_id = match next_level1_id(&self.sstables) {
            Ok(v) => v,
            Err(e) => {
                return Err(e);
            },
        };
        if (self.mem_table.entries.len() as u64) >= 0x100000000u64 {
            return Err(IoError::Other);
        }
        let name = format_sstable_name(1, new_id);
        proof {
            lemma_format_name_ok(1, new_id);
            assert(spec_wal_name().len() == 3);
            assert(name@ != spec_wal_name());
        }
        let wn = wal_name();
        let start_rec = encode_table_start_record(name.as_slice());
        match self.storage.append(wn.as_slice(), start_rec.as_slice()) {
            Ok(()) => {},
            Err(e) => {
                return Err(e);
            },
        }
        proof {
            lemma_replay_append(old(self).wal_bytes(), WalRecord::TableStart { name: name@ });
        }
        proof {
            lemma_sorted_implies_unique(ev);
            lemma_bounded_map_entries(ev);
        }
        let buf = write_sstable(&self.mem_table.entries);
        let ghost wal_after_start = self.wal_bytes();
        match self.storage.write(name.as_slice(), buf.as_slice()) {
            Ok(()) => {},
            Err(e) => {
                proof {
                    assert(self.wal_bytes() == wal_after_start);
                }
                return Err(e);
            },
        }
        let end_rec = encode_table_end_record(name.as_slice());
        match self.storage.append(wn.as_slice(), end_rec.as_slice()) {
            Ok(()) => {},
            Err(e) => {
                return Err(e);
            },
        }
        proof {
            lemma_replay_append(wal_after_start, WalRecord::TableEnd { name: name@ });
        }
        let reader = match self.storage.read(name.as_slice()) {
            Ok(rd) => rd,
            Err(e) => {
                return Err(e);
            },
        };
        proof {
            assert(reader.data() == buf@);
            assert(sorted_by_key(ev));
            assert(bounded_entries(ev));
            assert(ev.len() < 0x100000000);
            assert(buf@ == spec_sstable(ev));
            assert(buf@.len() == buf.len());
            assert(buf@.len() <= u64::MAX);
            assert(wf_image(buf@, ev));
        }
        let table = match SSTableReader::open_with(reader, Ghost(ev)) {
            Ok(t) => t,
            Err(e) => {
                return Err(e);
            },
        };
        let ghost old_maps = self.table_maps();
        let ghost old_db_map = self.db_map();
        let ghost mem = self.mem_table@;
        let pos = insert_table(&mut self.sstables, 1, new_id, table);
        proof {
            assert(self.table_maps() =~= old_maps.insert(pos as int, map_of(ev)));
            assert(map_of(ev) == mem);
            lemma_overlay_shadowed(old_maps, pos as int, mem);
            assert(self.db_map() == old_db_map);
        }
        match self.storage.truncate(wn.as_slice()) {
            Ok(()) => {},
            Err(e) => {
                return Err(e);
            },
        }
        Ok(())
    }
}


/// A blob that holds a finished table: named like a table and not
/// marked incomplete by the WAL.
pub open spec fn completed_table(
    blobs: Map<Seq<u8>, Seq<u8>>,
    incomplete: Set<Seq<u8>>,
    n: Seq<u8>,
) -> bool {
    blobs.contains_key(n) && ends_sst(n) && !incomplete.contains(n)
}

/// Storage contents no database image explains: a blob named neither
/// `wal` nor like a table, tables without a WAL, a WAL that replays as
/// corruption, or a completed table blob whose name does not parse.
pub open spec fn malformed_storage(blobs: Map<Seq<u8>, Seq<u8>>) -> bool {
    ||| exists|n: Seq<u8>|
        #[trigger] blobs.contains_key(n) && n != spec_wal_name() && !ends_sst(n)
    ||| (!blobs.contains_key(spec_wal_name()) && exists|n: Seq<u8>|
        #[trigger] blobs.contains_key(n) && ends_sst(n))
    ||| (blobs.contains_key(spec_wal_name()) && spec_replay(blobs[spec_wal_name()]) is Corrupt)
    ||| (blobs.contains_key(spec_wal_name()) && spec_replay(blobs[spec_wal_name()]) is Valid
        && exists|n: Seq<u8>|
        #[trigger] completed_table(
            blobs,
            spec_replay(blobs[spec_wal_name()]).state().incomplete,
            n,
        ) && spec_parse_name(n) is Err)
}

/// Split the blob names into the WAL and table names; any other name
/// is rejected. Beside the table names come ghost index maps tying
/// them back to the listing.
#[verifier::rlimit(100)]
#[verifier::spinoff_prover]
fn partition_names(names: &Vec<Vec<u8>>) -> (r: Result<
    (bool, Vec<Vec<u8>>, Ghost<Seq<int>>, Ghost<Seq<int>>),
    Error,
>)
    ensures
        r matches Ok(p) ==> {
            let srcs = p.2@;
            let dsts = p.3@;
            &&& srcs.len() == p.1@.len()
            &&& forall|l: int|
                0 <= l < srcs.len() ==> 0 <= #[trigger] srcs[l] < names@.len()
                    && names@[srcs[l]]@ == p.1@[l]@ && ends_sst(p.1@[l]@)
            &&& dsts.len() == names@.len()
            &&& forall|j: int|
                0 <= j < names@.len() ==> (#[trigger] names@[j])@ == spec_wal_name() || (0
                    <= dsts[j] < p.1@.len() && p.1@[dsts[j]]@ == names@[j]@ && ends_sst(
                    names@[j]@,
                ))
            &&& (p.0 ==> exists|j: int|
                0 <= j < names@.len() && (#[trigger] names@[j])@ == spec_wal_name())
            &&& (!p.0 ==> forall|j: int|
                0 <= j < names@.len() ==> (#[trigger] names@[j])@ != spec_wal_name())
        },
        r matches Err(e) ==> e matches Error::InvalidDatabase(_) && exists|j: int|
            0 <= j < names@.len() && (#[trigger] names@[j])@ != spec_wal_name() && !ends_sst(
                names@[j]@,
            ),
{
    let wn = wal_name();
    let mut wal_found = false;
    let mut sst_names: Vec<Vec<u8>> = Vec::new();
    let ghost mut srcs: Seq<int> = Seq::empty();
    let ghost mut dsts: Seq<int> = Seq::empty();
    let ghost mut wal_idx: int = 0;
    let names_len = names.len();
    let mut i: usize = 0;
    while i < names_len
        invariant
            0 <= i <= names_len,
            names_len == names@.len(),
            wn@ == spec_wal_name(),
            srcs.len() == sst_names@.len(),
            forall|l: int|
                0 <= l < srcs.len() ==> 0 <= #[trigger] srcs[l] < i && names@[srcs[l]]@
                    == sst_names@[l]@ && ends_sst(sst_names@[l]@),
            dsts.len() == i,
            forall|j: int|
                0 <= j < i ==> (#[trigger] names@[j])@ == spec_wal_name() || (0 <= dsts[j]
                    < sst_names@.len() && sst_names@[dsts[j]]@ == names@[j]@ && ends_sst(
                    names@[j]@,
                )),
            wal_found ==> 0 <= wal_idx < i && names@[wal_idx]@ == spec_wal_name(),
            !wal_found ==> forall|j: int|
                0 <= j < i ==> (#[trigger] names@[j])@ != spec_wal_name(),
        decreases names_len - i,
    {
        let ghost sst_before = sst_names@;
        let ghost dsts_before = dsts;
        let entry: &Vec<u8> = &names[i];
        match crate::order::compare_keys(entry.as_slice(), wn.as_slice()) {
            crate::order::KeyCmp::Equal => {
                wal_found = true;
                proof {
                    wal_idx = i as int;
                    dsts = dsts.push(0);
                    assert(names@[i as int]@ == spec_wal_name());
                }
            },
            _ => {
                if is_sst_name(entry.as_slice()) {
                    sst_names.push(slice_to_vec(entry.as_slice()));
                    proof {
                        srcs = srcs.push(i as int);
                        dsts = dsts.push(sst_before.len() as int);
                        assert(sst_names@[sst_before.len() as int]@ == names@[i as int]@);
                        assert(forall|l: int|
                            0 <= l < sst_before.len() ==> #[trigger] sst_names@[l]
                                == sst_before[l]);
                    }
                } else {
                    proof {
                        assert(names@[i as int]@ != spec_wal_name() && !ends_sst(
                            names@[i as int]@,
                        ));
                    }
                    return Err(Error::InvalidDatabase("Unexpected file in storage".to_owned()));
                }
            },
        }
        i = i + 1;
    }
    Ok((wal_found, sst_names, Ghost(srcs), Ghost(dsts)))
}

/// Delete every blob in the list, tolerating absence.
fn delete_incomplete<S: Storage>(storage: &mut S, incomplete: &Vec<Vec<u8>>) -> (r: Result<
    (),
    IoError,
>)
    requires
        old(storage).inv(),
    ensures
        final(storage).inv(),
        r is Ok ==> final(storage).blobs() == old(storage).blobs().remove_keys(
            crate::wal::names_set(incomplete@),
        ),
{
    let ghost blobs0 = storage.blobs();
    let inc_len = incomplete.len();
    let mut d: usize = 0;
    while d < inc_len
        invariant
            0 <= d <= inc_len,
            inc_len == incomplete@.len(),
            storage.inv(),
            storage.blobs() == blobs0.remove_keys(
                crate::wal::names_set(incomplete@.take(d as int)),
            ),
            blobs0 == old(storage).blobs(),
        decreases inc_len - d,
    {
        let nm: &Vec<u8> = &incomplete[d];
        match storage.delete(nm.as_slice()) {
            Ok(()) => {},
            Err(e) => {
                return Err(e);
            },
        }
        proof {
            let t1 = crate::wal::names_set(incomplete@.take(d as int));
            let t2 = crate::wal::names_set(incomplete@.take(d + 1));
            assert forall|k: Seq<u8>| t2.contains(k) == (t1.contains(k) || k == nm@) by {
                if exists|l: int|
                    0 <= l < incomplete@.take(d + 1).len() && (#[trigger] incomplete@.take(
                        d + 1,
                    )[l])@ == k {
                    let l = choose|l: int|
                        0 <= l < incomplete@.take(d + 1).len() && (#[trigger] incomplete@.take(
                            d + 1,
                        )[l])@ == k;
                    if l < d {
                        assert(incomplete@.take(d as int)[l]@ == k);
                    } else {
                        assert(incomplete@[d as int]@ == k);
                    }
                }
                if t1.contains(k) {
                    let l = choose|l: int|
                        0 <= l < incomplete@.take(d as int).len() && (#[trigger] incomplete@.take(
                            d as int,
                        )[l])@ == k;
                    assert(incomplete@.take(d + 1)[l]@ == k);
                }
                if k == nm@ {
                    assert(incomplete@.take(d + 1)[d as int]@ == k);
                }
            }
            assert(storage.blobs() =~= blobs0.remove_keys(t2));
        }
        d = d + 1;
    }
    proof {
        assert(incomplete@.take(inc_len as int) =~= incomplete@);
    }
    Ok(())
}

/// Open a reader over every completed table and place it in the
/// registry in `(level, id)` order.
/// What opening the completed tables yields: a registry in
/// `(level, id)` order matching the completed blobs.
pub open spec fn opened_tables_ok<R: ReadAt>(
    tables: Seq<TableEntry<R>>,
    blobs0: Map<Seq<u8>, Seq<u8>>,
    inc: Set<Seq<u8>>,
) -> bool {
    &&& forall|i2: int, j2: int|
        0 <= i2 < j2 < tables.len() ==> pair_le(
            ((#[trigger] tables[i2]).level, tables[i2].id),
            ((#[trigger] tables[j2]).level, tables[j2].id),
        )
    &&& exists|gnames: Seq<Seq<u8>>| registry_matches(tables, blobs0, inc, gnames)
    &&& registry_wf_if_images(tables, blobs0, inc)
}

/// Slot by slot, the registry carries exactly the completed table
/// blobs: slot `i2` reads the blob named `gnames[i2]`, and every
/// completed name appears in some slot.
pub open spec fn registry_matches<R: ReadAt>(
    tables: Seq<TableEntry<R>>,
    blobs0: Map<Seq<u8>, Seq<u8>>,
    inc: Set<Seq<u8>>,
    gnames: Seq<Seq<u8>>,
) -> bool {
    &&& gnames.len() == tables.len()
    &&& forall|i2: int|
        0 <= i2 < tables.len() ==> completed_table(blobs0, inc, #[trigger] gnames[i2]) && tables[
            i2].reader.file.data() == blobs0[gnames[i2]] && spec_parse_name(gnames[i2]) == Ok::<
            (u32, u32),
            (),
        >((tables[i2].level, tables[i2].id))
    &&& forall|n: Seq<u8>|
        completed_table(blobs0, inc, n) ==> exists|i2: int|
            0 <= i2 < gnames.len() && #[trigger] gnames[i2] == n
}

/// If every completed table blob is a well-formed image, every
/// registry entry is well-formed.
pub open spec fn registry_wf_if_images<R: ReadAt>(
    tables: Seq<TableEntry<R>>,
    blobs0: Map<Seq<u8>, Seq<u8>>,
    inc: Set<Seq<u8>>,
) -> bool {
    (forall|n: Seq<u8>|
        completed_table(blobs0, inc, n) ==> exists|entries: Seq<(Seq<u8>, Seq<u8>)>|
            wf_image(blobs0[n], entries)) ==> forall|i2: int|
        0 <= i2 < tables.len() ==> (#[trigger] tables[i2]).reader.wf()
}

#[verifier::rlimit(100)]
#[verifier::spinoff_prover]
fn open_tables<S: Storage>(
    storage: &S,
    sst_names: &Vec<Vec<u8>>,
    incomplete: &Vec<Vec<u8>>,
    Ghost(blobs0): Ghost<Map<Seq<u8>, Seq<u8>>>,
) -> (r: Result<Vec<TableEntry<S::Reader>>, Error>)
    requires
        storage.inv(),
        storage.blobs() == blobs0.remove_keys(crate::wal::names_set(incomplete@)),
        forall|l: int|
            0 <= l < sst_names@.len() ==> ends_sst((#[trigger] sst_names@[l])@)
                && blobs0.contains_key(sst_names@[l]@),
        forall|n: Seq<u8>|
            blobs0.contains_key(n) && ends_sst(n) ==> exists|l: int|
                0 <= l < sst_names@.len() && (#[trigger] sst_names@[l])@ == n,
    ensures
        r matches Ok(tables) ==> opened_tables_ok(
            tables@,
            blobs0,
            crate::wal::names_set(incomplete@),
        ),
        r matches Err(e) ==> (e matches Error::InvalidDatabase(_) ==> exists|n: Seq<u8>|
            #[trigger] completed_table(blobs0, crate::wal::names_set(incomplete@), n)
                && spec_parse_name(n) is Err),
{
    let ghost inc = crate::wal::names_set(incomplete@);
    let mut tables: Vec<TableEntry<S::Reader>> = Vec::new();
    let ghost mut gnames: Seq<Seq<u8>> = Seq::empty();
    let sst_len = sst_names.len();
    let mut idx: usize = 0;
    while idx < sst_len
        invariant
            0 <= idx <= sst_len,
            sst_len == sst_names@.len(),
            inc == crate::wal::names_set(incomplete@),
            storage.inv(),
            storage.blobs() == blobs0.remove_keys(inc),
            forall|l: int|
                0 <= l < sst_names@.len() ==> ends_sst((#[trigger] sst_names@[l])@)
                    && blobs0.contains_key(sst_names@[l]@),
            gnames.len() == tables@.len(),
            forall|i2: int, j2: int|
                0 <= i2 < j2 < tables@.len() ==> pair_le(
                    ((#[trigger] tables@[i2]).level, tables@[i2].id),
                    ((#[trigger] tables@[j2]).level, tables@[j2].id),
                ),
            forall|i2: int|
                0 <= i2 < tables@.len() ==> completed_table(blobs0, inc, #[trigger] gnames[i2])
                    && tables@[i2].reader.file.data() == blobs0[gnames[i2]] && spec_parse_name(
                    gnames[i2],
                ) == Ok::<(u32, u32), ()>((tables@[i2].level, tables@[i2].id)),
            forall|j2: int|
                0 <= j2 < idx && completed_table(blobs0, inc, (#[trigger] sst_names@[j2])@)
                    ==> exists|i2: int| 0 <= i2 < gnames.len() && #[trigger] gnames[i2]
                    == sst_names@[j2]@,
            (forall|n: Seq<u8>|
                completed_table(blobs0, inc, n) ==> exists|entries: Seq<(Seq<u8>, Seq<u8>)>|
                    wf_image(blobs0[n], entries)) ==> forall|i2: int|
                0 <= i2 < tables@.len() ==> (#[trigger] tables@[i2]).reader.wf(),
        decreases sst_len - idx,
    {
        let nm: &Vec<u8> = &sst_names[idx];
        match crate::wal::names_find(incomplete, nm.as_slice()) {
            Some(_) => {
                proof {
                    assert(inc.contains(nm@));
                }
            },
            None => {
                proof {
                    assert(!inc.contains(nm@));
                    assert(completed_table(blobs0, inc, nm@));
                    assert(storage.blobs().contains_key(nm@));
                    assert(storage.blobs()[nm@] == blobs0[nm@]);
                }
                let pair = match parse_name_bytes(nm.as_slice()) {
                    Ok(p) => p,
                    Err(()) => {
                        proof {
                            assert(completed_table(blobs0, inc, nm@) && spec_parse_name(nm@)
                                is Err);
                        }
                        return Err(Error::InvalidDatabase("Invalid sstable name".to_owned()));
                    },
                };
                let rd = match storage.read(nm.as_slice()) {
                    Ok(rd) => rd,
                    Err(e) => {
                        return Err(Error::IoError(e));
                    },
                };
                let table = match SSTableReader::open(rd) {
                    Ok(t) => t,
                    Err(e) => {
                        return Err(Error::IoError(e));
                    },
                };
                let ghost tables_before = tables@;
                let ghost gnames_before = gnames;
                let pos = insert_table(&mut tables, pair.0, pair.1, table);
                proof {
                    gnames = gnames_before.insert(pos as int, nm@);
                    assert(forall|x: int|
                        0 <= x < pos ==> #[trigger] tables@[x] == tables_before[x] && gnames[x]
                            == gnames_before[x]);
                    assert(tables@[pos as int].reader.file.data() == blobs0[nm@]);
                    assert(gnames[pos as int] == nm@);
                    assert(forall|x: int|
                        pos < x < tables@.len() ==> #[trigger] tables@[x] == tables_before[x - 1]
                            && gnames[x] == gnames_before[x - 1]);
                    assert forall|j2: int|
                        0 <= j2 < idx + 1 && completed_table(
                            blobs0,
                            inc,
                            (#[trigger] sst_names@[j2])@,
                        ) implies exists|i2: int| 0 <= i2 < gnames.len() && #[trigger] gnames[i2]
                        == sst_names@[j2]@ by {
                        if j2 < idx {
                            let i2 = choose|i2: int|
                                0 <= i2 < gnames_before.len() && #[trigger] gnames_before[i2]
                                    == sst_names@[j2]@;
                            if i2 < pos {
                                assert(gnames[i2] == sst_names@[j2]@);
                            } else {
                                assert(gnames[i2 + 1] == sst_names@[j2]@);
                            }
                        } else {
                            assert(gnames[pos as int] == sst_names@[j2]@);
                        }
                    }
                    if forall|n: Seq<u8>|
                        completed_table(blobs0, inc, n) ==> exists|
                            entries: Seq<(Seq<u8>, Seq<u8>)>,
                        | wf_image(blobs0[n], entries) {
                        assert(exists|entries: Seq<(Seq<u8>, Seq<u8>)>|
                            wf_image(blobs0[nm@], entries));
                        assert(table.wf());
                        assert forall|i2: int| 0 <= i2 < tables@.len() implies (
                        #[trigger] tables@[i2]).reader.wf() by {
                            if i2 < pos {
                                assert(tables@[i2] == tables_before[i2]);
                            } else if i2 > pos {
                                assert(tables@[i2] == tables_before[i2 - 1]);
                            }
                        }
                    }
                }
            },
        }
        idx = idx + 1;
    }
    proof {
        assert forall|n: Seq<u8>| completed_table(blobs0, inc, n) implies exists|i2: int|
            0 <= i2 < gnames.len() && #[trigger] gnames[i2] == n by {
            let l = choose|l: int|
                0 <= l < sst_names@.len() && (#[trigger] sst_names@[l])@ == n;
            assert(completed_table(blobs0, inc, sst_names@[l]@));
        }
        assert(registry_matches(tables@, blobs0, inc, gnames));
        assert(exists|g: Seq<Seq<u8>>| registry_matches(tables@, blobs0, inc, g));
        assert(registry_wf_if_images(tables@, blobs0, inc));
        assert(opened_tables_ok(tables@, blobs0, inc));
    }
    Ok(tables)
}

impl<S: Storage> Database<S> {
    /// Open a database over a storage backend: partition the blobs
    /// into the WAL and tables, replay the WAL, drop tables whose
    /// materialization the WAL never witnessed complete, and open the
    /// rest.
    #[verifier::rlimit(100)]
    #[verifier::spinoff_prover]
    pub fn open(storage: S) -> (r: Result<Database<S>, Error>)
        requires
            storage.inv(),
        ensures
            r matches Ok(db) ==> {
                &&& db.wf()
                &&& forall|n: Seq<u8>|
                    storage.blobs().contains_key(n) ==> n == spec_wal_name() || ends_sst(n)
                &&& (!storage.blobs().contains_key(spec_wal_name()) ==> {
                    &&& storage.blobs().dom() =~= Set::<Seq<u8>>::empty()
                    &&& db.mem_table@ == Map::<Seq<u8>, Seq<u8>>::empty()
                    &&& db.sstables@.len() == 0
                    &&& db.storage.blobs() == storage.blobs()
                })
                &&& (storage.blobs().contains_key(spec_wal_name()) ==> {
                    let replayed = spec_replay(storage.blobs()[spec_wal_name()]);
                    &&& replayed is Valid
                    &&& db.mem_table@ == replayed.state().table
                    &&& db.storage.blobs() == storage.blobs().remove_keys(
                        replayed.state().incomplete,
                    )
                    &&& opened_tables_ok(
                        db.sstables@,
                        storage.blobs(),
                        replayed.state().incomplete,
                    )
                    &&& ((forall|n: Seq<u8>|
                        completed_table(storage.blobs(), replayed.state().incomplete, n)
                            ==> exists|entries: Seq<(Seq<u8>, Seq<u8>)>|
                            wf_image(storage.blobs()[n], entries)) ==> db.tables_wf())
                })
            },
            r matches Err(e) ==> (e matches Error::InvalidDatabase(_) ==> malformed_storage(
                storage.blobs(),
            )),
    {
        let ghost blobs0 = storage.blobs();
        let mut storage = storage;
        let names = match storage.list() {
            Ok(n) => n,
            Err(e) => {
                return Err(Error::IoError(e));
            },
        };
        let (wal_found, sst_names, Ghost(srcs), Ghost(dsts)) = match partition_names(&names) {
            Ok(p) => p,
            Err(e) => {
                proof {
                    let j = choose|j: int|
                        0 <= j < names@.len() && (#[trigger] names@[j])@ != spec_wal_name()
                            && !ends_sst(names@[j]@);
                    assert(blobs0.contains_key(names@[j]@));
                    assert(malformed_storage(blobs0));
                }
                return Err(e);
            },
        };
        proof {
            assert forall|n: Seq<u8>| blobs0.contains_key(n) implies n == spec_wal_name()
                || ends_sst(n) by {
                let j = choose|j: int| 0 <= j < names@.len() && (#[trigger] names@[j])@ == n;
            }
            assert(wal_found == blobs0.contains_key(spec_wal_name())) by {
                if wal_found {
                    let j = choose|j: int|
                        0 <= j < names@.len() && (#[trigger] names@[j])@ == spec_wal_name();
                    assert(blobs0.contains_key(names@[j]@));
                }
                if blobs0.contains_key(spec_wal_name()) {
                    let j = choose|j: int|
                        0 <= j < names@.len() && (#[trigger] names@[j])@ == spec_wal_name();
                    assert(names@[j]@ == spec_wal_name());
                }
            }
            assert forall|l: int| 0 <= l < sst_names@.len() implies ends_sst(
                (#[trigger] sst_names@[l])@,
            ) && blobs0.contains_key(sst_names@[l]@) by {
                assert(names@[srcs[l]]@ == sst_names@[l]@);
                assert(blobs0.contains_key(names@[srcs[l]]@));
            }
        }
        if !wal_found {
            if sst_names.len() > 0 {
                proof {
                    assert(blobs0.contains_key(sst_names@[0]@) && ends_sst(sst_names@[0]@));
                    assert(malformed_storage(blobs0));
                }
                return Err(Error::InvalidDatabase("Missing wal".to_owned()));
            }
            proof {
                assert forall|n: Seq<u8>| !blobs0.contains_key(n) by {
                    if blobs0.contains_key(n) {
                        let j = choose|j: int|
                            0 <= j < names@.len() && (#[trigger] names@[j])@ == n;
                        assert(names@[j]@ != spec_wal_name());
                        assert(sst_names@[dsts[j]]@ == n);
                    }
                }
                assert(blobs0.dom() =~= Set::<Seq<u8>>::empty());
            }
            let db = Database {
                storage,
                sstables: Vec::new(),
                mem_table: MemTable { entries: Vec::new() },
            };
            proof {
                assert(db.mem_table.entries_view() =~= Seq::<(Seq<u8>, Seq<u8>)>::empty());
                assert(db.mem_table@ =~= Map::<Seq<u8>, Seq<u8>>::empty());
                assert(db.wal_bytes() =~= Seq::<u8>::empty());
            }
            return Ok(db);
        }
        let wn = wal_name();
        let wal_reader = match storage.read(wn.as_slice()) {
            Ok(rd) => rd,
            Err(e) => {
                return Err(Error::IoError(e));
            },
        };
        let outcome = match crate::wal::replay_wal(&wal_reader) {
            Ok(o) => o,
            Err(e) => {
                proof {
                    if e matches Error::InvalidDatabase(_) {
                        assert(spec_replay(blobs0[spec_wal_name()]) is Corrupt);
                        assert(malformed_storage(blobs0));
                    }
                }
                return Err(e);
            },
        };
        let ghost inc = crate::wal::names_set(outcome.incomplete@);
        match delete_incomplete(&mut storage, &outcome.incomplete) {
            Ok(()) => {},
            Err(e) => {
                return Err(Error::IoError(e));
            },
        }
        proof {
            assert(!ends_sst(spec_wal_name()));
            assert forall|n: Seq<u8>| blobs0.contains_key(n) && ends_sst(n) implies exists|
                l: int,
            | 0 <= l < sst_names@.len() && (#[trigger] sst_names@[l])@ == n by {
                let j = choose|j: int| 0 <= j < names@.len() && (#[trigger] names@[j])@ == n;
                assert(names@[j]@ != spec_wal_name());
                assert(sst_names@[dsts[j]]@ == n);
            }
        }
        let tables = match open_tables(&storage, &sst_names, &outcome.incomplete, Ghost(blobs0)) {
            Ok(t) => t,
            Err(e) => {
                proof {
                    if e matches Error::InvalidDatabase(_) {
                        let replayed = spec_replay(blobs0[spec_wal_name()]);
                        assert(replayed is Valid);
                        assert(inc == replayed.state().incomplete);
                        assert(malformed_storage(blobs0));
                    }
                }
                return Err(e);
            },
        };
        let db = Database { storage, sstables: tables, mem_table: outcome.table };
        proof {
            let replayed = spec_replay(blobs0[spec_wal_name()]);
            assert(replayed is Valid);
            assert(inc == replayed.state().incomplete);
            assert(db.mem_table@ == replayed.state().table);
            if inc.contains(spec_wal_name()) {
                assert(!db.storage.blobs().contains_key(spec_wal_name()));
                assert(db.wal_bytes() =~= Seq::<u8>::empty());
            } else {
                assert(db.wal_bytes() == blobs0[spec_wal_name()]);
            }
            assert(db.sstables@ == tables@);
        }
        Ok(db)
    }
}


/// Forward iterator over a range query's results, ascending by key.
pub struct RangeIterator {
    pub entries: Vec<(Vec<u8>, Vec<u8>)>,
    pub pos: usize,
}

impl RangeIterator {
    /// The selected entries as mathematical pairs.
    pub open spec fn entries_view(self) -> Seq<(Seq<u8>, Seq<u8>)> {
        crate::kvmap::entries_view(self.entries@)
    }

    pub open spec fn wf(self) -> bool {
        self.pos <= self.entries@.len()
    }

    /// The entries not yet yielded.
    pub open spec fn remaining(self) -> Seq<(Seq<u8>, Seq<u8>)> {
        self.entries_view().skip(self.pos as int)
    }

    /// Yield the next entry.
    pub fn next(&mut self) -> (r: Option<(Vec<u8>, Vec<u8>)>)
        requires
            old(self).wf(),
        ensures
            final(self).wf(),
            final(self).entries_view() == old(self).entries_view(),
            match r {
                Some(e) => old(self).remaining().len() > 0 && (e.0@, e.1@) == old(
                    self,
                ).remaining()[0] && final(self).pos == old(self).pos + 1,
                None => old(self).remaining().len() == 0 && final(self).pos == old(self).pos,
            },
    {
        if self.pos < self.entries.len() {
            let e: &(Vec<u8>, Vec<u8>) = &self.entries[self.pos];
            let result = (slice_to_vec(e.0.as_slice()), slice_to_vec(e.1.as_slice()));
            self.pos = self.pos + 1;
            Some(result)
        } else {
            None
        }
    }
}

impl<S: Storage> Database<S> {
    /// Everything in `[key_start, key_end)`, merged across the
    /// in-memory table and every registered table, the freshest value
    /// winning, ascending by key.
    #[verifier::rlimit(100)]
    #[verifier::spinoff_prover]
    #[verifier::loop_isolation(false)]
    pub fn iter_range(&mut self, key_start: &[u8], key_end: &[u8]) -> (r: Result<
        RangeIterator,
        IoError,
    >)
        requires
            old(self).wf(),
        ensures
            *final(self) == *old(self),
            old(self).sstables@.len() == 0 ==> r is Ok,
            r matches Ok(it) ==> (old(self).tables_wf() ==> {
                let sel = it.entries_view();
                &&& it.wf()
                &&& it.pos == 0
                &&& sorted_by_key(sel)
                &&& forall|x: int|
                    0 <= x < sel.len() ==> crate::kvmap::in_range(
                        key_start@,
                        key_end@,
                        (#[trigger] sel[x]).0,
                    ) && old(self).db_map().contains_key(sel[x].0) && old(self).db_map()[sel[x].0]
                        == sel[x].1
                &&& forall|k: Seq<u8>|
                    old(self).db_map().contains_key(k) && crate::kvmap::in_range(
                        key_start@,
                        key_end@,
                        k,
                    ) ==> exists|x: int| 0 <= x < sel.len() && (#[trigger] sel[x]).0 == k
            }),
    {
        let ghost maps = self.table_maps();
        let mut merged = MemTable { entries: Vec::new() };
        proof {
            assert(merged.entries_view() =~= Seq::<(Seq<u8>, Seq<u8>)>::empty());
            assert(merged@ =~= overlay(maps.take(0)));
        }
        let tn = self.sstables.len();
        let mut ti: usize = 0;
        while ti < tn
            invariant
                0 <= ti <= tn,
                merged.wf(),
                self.tables_wf() ==> merged@ == overlay(maps.take(ti as int)),
            decreases tn - ti,
        {
            let t: &SSTableReader<S::Reader> = &self.sstables[ti].reader;
            if (t.size as u64) >= 0x100000000u64 {
                proof {
                    if self.tables_wf() {
                        assert(self.sstables@[ti as int].reader.wf());
                        assert(false);
                    }
                }
                return Err(IoError::Other);
            }
            let ghost tev = t.entries@;
            let en = t.size;
            let mut j: usize = 0;
            while j < en
                invariant
                    0 <= j <= en,
                    en == t.size,
                    (t.size as u64) < 0x100000000u64,
                    t == &self.sstables@[ti as int].reader,
                    0 <= ti < tn,
                    tev == t.entries@,
                    merged.wf(),
                    self.tables_wf() ==> merged@ == overlay(maps.take(ti as int)).union_prefer_right(
                        map_of(tev.take(j as int)),
                    ),
                decreases en - j,
            {
                let e = match t.read_entry(j) {
                    Ok(e) => e,
                    Err(err) => {
                        return Err(err);
                    },
                };
                let ghost before = merged@;
                merged.put(e.0.as_slice(), e.1);
                proof {
                    if self.tables_wf() {
                        assert(t.wf());
                        let next = tev.take(j + 1);
                        assert(next.drop_last() =~= tev.take(j as int));
                        assert(next.last() == tev[j as int]);
                        lemma_union_insert_right(
                            overlay(maps.take(ti as int)),
                            map_of(tev.take(j as int)),
                            tev[j as int].0,
                            tev[j as int].1,
                        );
                    }
                }
                j = j + 1;
            }
            proof {
                if self.tables_wf() {
                    assert(tev.take(en as int) =~= tev);
                    let nxt = maps.take(ti + 1);
                    assert(nxt.drop_last() =~= maps.take(ti as int));
                    assert(nxt.last() == maps[ti as int]);
                    assert(maps[ti as int] == map_of(tev));
                }
            }
            ti = ti + 1;
        }
        proof {
            if self.tables_wf() {
                assert(maps.take(tn as int) =~= maps);
            }
        }
        let mn = self.mem_table.entries.len();
        let ghost mev = self.mem_table.entries_view();
        let mut mj: usize = 0;
        while mj < mn
            invariant
                0 <= mj <= mn,
                mn == self.mem_table.entries@.len(),
                mev == self.mem_table.entries_view(),
                merged.wf(),
                self.tables_wf() ==> merged@ == overlay(maps).union_prefer_right(
                    map_of(mev.take(mj as int)),
                ),
            decreases mn - mj,
        {
            let e: &(Vec<u8>, Vec<u8>) = &self.mem_table.entries[mj];
            let ghost before = merged@;
            merged.put(e.0.as_slice(), slice_to_vec(e.1.as_slice()));
            proof {
                if self.tables_wf() {
                    let next = mev.take(mj + 1);
                    assert(next.drop_last() =~= mev.take(mj as int));
                    assert(next.last() == mev[mj as int]);
                    lemma_union_insert_right(
                        overlay(maps),
                        map_of(mev.take(mj as int)),
                        mev[mj as int].0,
                        mev[mj as int].1,
                    );
                }
            }
            mj = mj + 1;
        }
        proof {
            if self.tables_wf() {
                assert(mev.take(mn as int) =~= mev);
                assert(merged@ == old(self).db_map());
            }
        }
        let it0 = merged.iter_range(key_start, key_end);
        let it = RangeIterator { entries: it0.entries, pos: 0 };
        proof {
            if self.tables_wf() {
                let me = merged.entries_view();
                let sel = it.entries_view();
                let pred = |e: (Seq<u8>, Seq<u8>)|
                    crate::kvmap::in_range(key_start@, key_end@, e.0);
                crate::kvmap::lemma_range_of_props(me, key_start@, key_end@);
                lemma_sorted_implies_unique(me);
                assert forall|x: int| 0 <= x < sel.len() implies crate::kvmap::in_range(
                    key_start@,
                    key_end@,
                    (#[trigger] sel[x]).0,
                ) && old(self).db_map().contains_key(sel[x].0) && old(self).db_map()[sel[x].0]
                    == sel[x].1 by {
                    assert(me.contains(sel[x]));
                    let i = choose|i: int| 0 <= i < me.len() && me[i] == sel[x];
                    crate::kvmap::lemma_map_of_index(me, i);
                }
                assert forall|k: Seq<u8>|
                    old(self).db_map().contains_key(k) && crate::kvmap::in_range(
                        key_start@,
                        key_end@,
                        k,
                    ) implies exists|x: int| 0 <= x < sel.len() && (#[trigger] sel[x]).0
                    == k by {
                    crate::kvmap::lemma_map_of_key(me, k);
                    let i = choose|i: int| 0 <= i < me.len() && (#[trigger] me[i]).0 == k;
                    me.lemma_filter_contains(pred, i);
                    assert(crate::kvmap::range_of(me, key_start@, key_end@).contains(me[i]));
                    let x = choose|x: int| 0 <= x < sel.len() && sel[x] == me[i];
                    assert(sel[x].0 == k);
                }
            }
        }
        Ok(it)
    }
}


/// Get after put: for all keys and values, once `put(k, v)` has taken
/// effect on what the database serves, a lookup of `k` serves `v`.
/// `put` turns the served map `m` into `m.insert(k, v)`; `get` serves
/// that map.
pub proof fn lemma_get_after_put(m: Map<Seq<u8>, Seq<u8>>, k: Seq<u8>, v: Seq<u8>)
    ensures
        m.insert(k, v).contains_key(k),
        m.insert(k, v)[k] == v,
{
}

/// Last write wins: two puts to the same key leave the second value.
pub proof fn lemma_last_write_wins(m: Map<Seq<u8>, Seq<u8>>, k: Seq<u8>, v1: Seq<u8>, v2: Seq<u8>)
    ensures
        m.insert(k, v1).insert(k, v2).contains_key(k),
        m.insert(k, v1).insert(k, v2)[k] == v2,
{
}

/// Get after delete: after `put(k, v)` then `delete(k)` the key is no
/// longer served, provided no registered table still holds it. Deletes
/// are not persisted as tombstones, so a key an earlier maintenance
/// pass wrote into a table (`t` holds the tables' merged map) is not
/// shadowed once it leaves the in-memory table.
pub proof fn lemma_get_after_delete(
    t: Map<Seq<u8>, Seq<u8>>,
    m: Map<Seq<u8>, Seq<u8>>,
    k: Seq<u8>,
    v: Seq<u8>,
)
    requires
        !t.contains_key(k),
    ensures
        !t.union_prefer_right(m.insert(k, v).remove(k)).contains_key(k),
{
}

} // verus!
