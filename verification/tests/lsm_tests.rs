use lsmtree::names::format_sstable_name;
use lsmtree::storage::Storage;
use lsmtree::{Database, MemTable, MemoryStorage};

fn v(s: &[u8]) -> Vec<u8> {
    s.into()
}

fn collect_range(
    db: &mut Database<MemoryStorage>,
    start: &[u8],
    end: &[u8],
) -> Vec<(Vec<u8>, Vec<u8>)> {
    let mut it = db.iter_range(start, end).unwrap();
    let mut out = Vec::new();
    while let Some(e) = it.next() {
        out.push(e);
    }
    out
}

#[test]
fn test_memtable() {
    let mut mem_table: MemTable = Default::default();
    assert_eq!(mem_table.entries, vec![]);
    mem_table.put(b"ghi", v(b"111"));
    mem_table.put(b"abc", v(b"222"));
    mem_table.put(b"mno", v(b"333"));
    mem_table.put(b"ghi", v(b"444"));
    mem_table.put(b"def", v(b"555"));
    mem_table.put(b"jkl", v(b"666"));
    mem_table.put(b"def", v(b"777"));
    mem_table.delete(b"ghi");
    assert_eq!(
        mem_table.entries,
        vec![
            (v(b"abc"), v(b"222")),
            (v(b"def"), v(b"777")),
            (v(b"jkl"), v(b"666")),
            (v(b"mno"), v(b"333")),
        ]
    );

    let mut it = mem_table.iter_range(b"def", b"jkl");
    let mut got = Vec::new();
    while let Some(e) = it.next() {
        got.push(e);
    }
    assert_eq!(got, vec![(v(b"def"), v(b"777"))]);

    let mut it = mem_table.iter_range(b"a", b"jz");
    let mut got = Vec::new();
    while let Some(e) = it.next() {
        got.push(e);
    }
    assert_eq!(
        got,
        vec![
            (v(b"abc"), v(b"222")),
            (v(b"def"), v(b"777")),
            (v(b"jkl"), v(b"666")),
        ]
    );

    let mut it = mem_table.iter_range(b"def", b"z");
    let mut got = Vec::new();
    while let Some(e) = it.next() {
        got.push(e);
    }
    assert_eq!(
        got,
        vec![
            (v(b"def"), v(b"777")),
            (v(b"jkl"), v(b"666")),
            (v(b"mno"), v(b"333")),
        ]
    );
}

#[test]
fn test_database() {
    let storage = MemoryStorage::new();
    let mut db = Database::open(storage).unwrap();

    fn check(db: &mut Database<MemoryStorage>) {
        db.put(b"ghi", b"111").unwrap();
        db.put(b"abc", b"222").unwrap();
        db.put(b"mno", b"333").unwrap();
        db.put(b"ghi", b"444").unwrap();
        db.put(b"def", b"555").unwrap();
        db.put(b"jkl", b"666").unwrap();
        db.put(b"def", b"777").unwrap();
        db.delete(b"ghi").unwrap();
    }
    check(&mut db);

    db.maintain().unwrap();
    check(&mut db);

    assert_eq!(db.get(b"abc").unwrap(), Some(v(b"222")));
    assert_eq!(db.get(b"def").unwrap(), Some(v(b"777")));
    assert_eq!(db.get(b"ghi").unwrap(), None);
    assert_eq!(db.get(b"jkl").unwrap(), Some(v(b"666")));
    assert_eq!(db.get(b"mno").unwrap(), Some(v(b"333")));
    assert_eq!(db.get(b"zzz").unwrap(), None);

    assert_eq!(
        collect_range(&mut db, b"def", b"jkl"),
        vec![(v(b"def"), v(b"777"))],
    );

    assert_eq!(
        collect_range(&mut db, b"a", b"jz"),
        vec![
            (v(b"abc"), v(b"222")),
            (v(b"def"), v(b"777")),
            (v(b"jkl"), v(b"666")),
        ],
    );

    assert_eq!(
        collect_range(&mut db, b"def", b"z"),
        vec![
            (v(b"def"), v(b"777")),
            (v(b"jkl"), v(b"666")),
            (v(b"mno"), v(b"333")),
        ],
    );
}

#[test]
fn test_open_empty() {
    let storage = MemoryStorage::new();
    let mut db = Database::open(storage).unwrap();
    assert_eq!(db.get(b"x").unwrap(), None);
}

#[test]
fn test_get_after_put_and_last_write_wins() {
    let mut db = Database::open(MemoryStorage::new()).unwrap();
    db.put(b"k", b"v1").unwrap();
    assert_eq!(db.get(b"k").unwrap(), Some(v(b"v1")));
    db.put(b"k", b"v2").unwrap();
    assert_eq!(db.get(b"k").unwrap(), Some(v(b"v2")));
}

#[test]
fn test_get_after_delete() {
    let mut db = Database::open(MemoryStorage::new()).unwrap();
    db.put(b"k", b"v").unwrap();
    db.delete(b"k").unwrap();
    assert_eq!(db.get(b"k").unwrap(), None);
}

#[test]
fn test_maintain_preserves_reads() {
    let mut db = Database::open(MemoryStorage::new()).unwrap();
    db.put(b"a", b"1").unwrap();
    db.put(b"b", b"2").unwrap();
    db.maintain().unwrap();
    assert_eq!(db.get(b"a").unwrap(), Some(v(b"1")));
    assert_eq!(db.get(b"b").unwrap(), Some(v(b"2")));
    db.maintain().unwrap();
    db.maintain().unwrap();
    assert_eq!(db.get(b"a").unwrap(), Some(v(b"1")));
}

#[test]
fn test_reopen_replays_wal() {
    let mut db = Database::open(MemoryStorage::new()).unwrap();
    db.put(b"k1", b"v1").unwrap();
    db.put(b"k2", b"v2").unwrap();
    db.delete(b"k1").unwrap();
    let storage = db.storage;
    let mut db2 = Database::open(storage).unwrap();
    assert_eq!(db2.get(b"k1").unwrap(), None);
    assert_eq!(db2.get(b"k2").unwrap(), Some(v(b"v2")));
}

#[test]
fn test_reopen_after_maintain_serves_sstable() {
    let mut db = Database::open(MemoryStorage::new()).unwrap();
    db.put(b"k1", b"v1").unwrap();
    db.put(b"k2", b"v2").unwrap();
    db.maintain().unwrap();
    let storage = db.storage;
    let mut db2 = Database::open(storage).unwrap();
    assert_eq!(db2.get(b"k1").unwrap(), Some(v(b"v1")));
    assert_eq!(db2.get(b"k2").unwrap(), Some(v(b"v2")));
    assert_eq!(db2.get(b"k3").unwrap(), None);
}

#[test]
fn test_incomplete_flush_cleanup() {
    // A WAL holding only a materialization start, with a garbage blob
    // under the started name: reopening deletes the blob and serves an
    // empty database.
    let mut storage = MemoryStorage::new();
    let mut record = vec![2u8, 0, 0, 0, 7];
    record.extend_from_slice(b"1-0.sst");
    storage.append(b"wal", &record).unwrap();
    storage.write(b"1-0.sst", b"garbage").unwrap();
    let mut db = Database::open(storage).unwrap();
    assert_eq!(db.get(b"x").unwrap(), None);
    assert_eq!(db.sstables.len(), 0);
    let names = db.storage.list().unwrap();
    assert_eq!(names, vec![b"wal".to_vec()]);
}

#[test]
fn test_truncated_wal_record_is_corruption() {
    // A put record with its trailing bytes cut off mid-record.
    let mut storage = MemoryStorage::new();
    let mut record = vec![0u8, 0, 0, 0, 3];
    record.extend_from_slice(b"abc");
    record.extend_from_slice(&[0, 0, 0, 3]);
    record.extend_from_slice(b"12"); // one byte short
    storage.append(b"wal", &record).unwrap();
    match Database::open(storage) {
        Err(lsmtree::Error::InvalidDatabase(_)) => {}
        other => panic!("expected invalid database, got {:?}", other.is_ok()),
    }
}

#[test]
fn test_invalid_wal_tag() {
    let mut storage = MemoryStorage::new();
    storage.append(b"wal", &[9u8]).unwrap();
    match Database::open(storage) {
        Err(lsmtree::Error::InvalidDatabase(_)) => {}
        _ => panic!("expected invalid database"),
    }
}

#[test]
fn test_unexpected_blob_name_rejected() {
    let mut storage = MemoryStorage::new();
    storage.write(b"stray", b"data").unwrap();
    match Database::open(storage) {
        Err(lsmtree::Error::InvalidDatabase(_)) => {}
        _ => panic!("expected invalid database"),
    }
}

#[test]
fn test_sstable_without_wal_rejected() {
    let mut storage = MemoryStorage::new();
    storage.write(b"1-0.sst", b"data").unwrap();
    match Database::open(storage) {
        Err(lsmtree::Error::InvalidDatabase(_)) => {}
        _ => panic!("expected invalid database"),
    }
}

#[test]
fn test_write_sstable_format() {
    // One entry: key "a", value "bc". Count 1, one offset 0, then the
    // length-prefixed key and value.
    let entries = vec![(v(b"a"), v(b"bc"))];
    let image = lsmtree::write_sstable(&entries);
    assert_eq!(
        image,
        vec![
            0, 0, 0, 1, // count
            0, 0, 0, 0, 0, 0, 0, 0, // offset of entry 0
            0, 0, 0, 1, b'a', // key
            0, 0, 0, 2, b'b', b'c', // value
        ]
    );
}

#[test]
fn test_sstable_round_trip() {
    // Writing sorted entries and reading each key back through a
    // database that serves them only from the table.
    let mut db = Database::open(MemoryStorage::new()).unwrap();
    db.put(b"alpha", b"1").unwrap();
    db.put(b"beta", b"2").unwrap();
    db.put(b"gamma", b"3").unwrap();
    db.maintain().unwrap();
    let storage = db.storage;
    let mut db2 = Database::open(storage).unwrap();
    assert_eq!(db2.get(b"alpha").unwrap(), Some(v(b"1")));
    assert_eq!(db2.get(b"beta").unwrap(), Some(v(b"2")));
    assert_eq!(db2.get(b"gamma").unwrap(), Some(v(b"3")));
    assert_eq!(db2.get(b"delta").unwrap(), None);
}

#[test]
fn test_format_name_round_trip() {
    let name = format_sstable_name(1, 0);
    assert_eq!(name, b"1-0.sst".to_vec());
    assert_eq!(
        lsmtree::parse_sstable_name(std::str::from_utf8(&name).unwrap()),
        Ok((1, 0))
    );
    let name = format_sstable_name(4294967295, 123456789);
    assert_eq!(
        lsmtree::parse_sstable_name(std::str::from_utf8(&name).unwrap()),
        Ok((4294967295, 123456789))
    );
}
