//! The write-ahead log: framed records, their byte encoding, and the
//! replay that rebuilds the in-memory state from the log. An end of
//! input exactly at a record boundary ends the log cleanly; an end of
//! input inside a record, an unknown record tag, or a non-ASCII table
//! name is corruption.

use vstd::prelude::*;

use crate::codec::be32_decode;
use crate::codec::lemma_be32_round_trip;
use crate::codec::push_be32;
use crate::codec::spec_be32;
use crate::codec::spec_be32_decode;
use crate::kvmap::bounded_map;
use crate::mem_table::MemTable;
use crate::order::compare_keys;
use crate::order::KeyCmp;
use crate::storage::ReadAt;
use crate::Error;
use crate::IoError;

verus! {

/// One record of the log.
pub enum WalRecord {
    Put { key: Seq<u8>, value: Seq<u8> },
    Delete { key: Seq<u8> },
    TableStart { name: Seq<u8> },
    TableEnd { name: Seq<u8> },
}

/// Every byte is ASCII.
pub open spec fn ascii_name(name: Seq<u8>) -> bool {
    forall|i: int| 0 <= i < name.len() ==> name[i] < 128
}

/// The record can be framed: lengths fit their 32-bit prefixes and
/// table names are ASCII.
pub open spec fn valid_record(r: WalRecord) -> bool {
    match r {
        WalRecord::Put { key, value } => key.len() < 0x100000000 && value.len() < 0x100000000,
        WalRecord::Delete { key } => key.len() < 0x100000000,
        WalRecord::TableStart { name } => name.len() < 0x100000000 && ascii_name(name),
        WalRecord::TableEnd { name } => name.len() < 0x100000000 && ascii_name(name),
    }
}

/// A length-prefixed byte string.
pub open spec fn spec_vec_bytes(b: Seq<u8>) -> Seq<u8> {
    spec_be32(b.len() as u32) + b
}

/// The framed bytes of one record: a one-byte tag, then the record's
/// length-prefixed fields.
pub open spec fn spec_record_bytes(r: WalRecord) -> Seq<u8> {
    match r {
        WalRecord::Put { key, value } => seq![0u8] + spec_vec_bytes(key) + spec_vec_bytes(value),
        WalRecord::Delete { key } => seq![1u8] + spec_vec_bytes(key),
        WalRecord::TableStart { name } => seq![2u8] + spec_vec_bytes(name),
        WalRecord::TableEnd { name } => seq![3u8] + spec_vec_bytes(name),
    }
}

/// The log as a whole: records back to back.
pub open spec fn spec_records_bytes(rs: Seq<WalRecord>) -> Seq<u8>
    decreases rs.len(),
{
    if rs.len() == 0 {
        Seq::empty()
    } else {
        spec_record_bytes(rs[0]) + spec_records_bytes(rs.skip(1))
    }
}

/// The state replay builds: the rebuilt table and the set of tables
/// whose materialization was started but not witnessed complete.
pub struct ReplayState {
    pub table: Map<Seq<u8>, Seq<u8>>,
    pub incomplete: Set<Seq<u8>>,
}

/// The state before any record.
pub open spec fn init_state() -> ReplayState {
    ReplayState { table: Map::empty(), incomplete: Set::empty() }
}

/// The effect of one record.
pub open spec fn apply_record(st: ReplayState, r: WalRecord) -> ReplayState {
    match r {
        WalRecord::Put { key, value } => ReplayState { table: st.table.insert(key, value), ..st },
        WalRecord::Delete { key } => ReplayState { table: st.table.remove(key), ..st },
        WalRecord::TableStart { name } => ReplayState {
            incomplete: st.incomplete.insert(name),
            ..st
        },
        WalRecord::TableEnd { name } => ReplayState {
            incomplete: st.incomplete.remove(name),
            ..st
        },
    }
}

/// The effect of a record sequence, first record first.
pub open spec fn replay_records(rs: Seq<WalRecord>) -> ReplayState
    decreases rs.len(),
{
    if rs.len() == 0 {
        init_state()
    } else {
        apply_record(replay_records(rs.drop_last()), rs.last())
    }
}

/// How replaying raw bytes ends.
pub enum ReplayResult {
    /// The input ended at a record boundary, leaving this state.
    Valid(ReplayState),
    /// The input ended inside a record, held an unknown tag, or named
    /// a table with a non-ASCII name.
    Corrupt,
}

impl ReplayResult {
    /// The state of a valid replay.
    pub open spec fn state(self) -> ReplayState
        recommends
            self is Valid,
    {
        self->Valid_0
    }
}

/// A length-prefixed byte string can be read whole at `pos`.
pub open spec fn can_read_vec(data: Seq<u8>, pos: int) -> bool {
    pos + 4 <= data.len() && pos + 4 + spec_be32_decode(data.subrange(pos, pos + 4)) <= data.len()
}

/// The byte string read at `pos`.
pub open spec fn read_vec_bytes(data: Seq<u8>, pos: int) -> Seq<u8> {
    data.subrange(pos + 4, pos + 4 + spec_be32_decode(data.subrange(pos, pos + 4)))
}

/// The position after the byte string at `pos`.
pub open spec fn after_vec(data: Seq<u8>, pos: int) -> int {
    pos + 4 + spec_be32_decode(data.subrange(pos, pos + 4))
}

/// Replay `data` from `pos` onward, starting in state `st`.
pub open spec fn spec_replay_from(data: Seq<u8>, pos: int, st: ReplayState) -> ReplayResult
    decreases data.len() - pos,
    when 0 <= pos <= data.len()
{
    if pos == data.len() {
        ReplayResult::Valid(st)
    } else {
        let tag = data[pos];
        if tag == 0 {
            if can_read_vec(data, pos + 1) && can_read_vec(data, after_vec(data, pos + 1)) {
                let key = read_vec_bytes(data, pos + 1);
                let p2 = after_vec(data, pos + 1);
                let value = read_vec_bytes(data, p2);
                spec_replay_from(
                    data,
                    after_vec(data, p2),
                    apply_record(st, WalRecord::Put { key, value }),
                )
            } else {
                ReplayResult::Corrupt
            }
        } else if tag == 1 {
            if can_read_vec(data, pos + 1) {
                let key = read_vec_bytes(data, pos + 1);
                spec_replay_from(
                    data,
                    after_vec(data, pos + 1),
                    apply_record(st, WalRecord::Delete { key }),
                )
            } else {
                ReplayResult::Corrupt
            }
        } else if tag == 2 {
            if can_read_vec(data, pos + 1) && ascii_name(read_vec_bytes(data, pos + 1)) {
                let name = read_vec_bytes(data, pos + 1);
                spec_replay_from(
                    data,
                    after_vec(data, pos + 1),
                    apply_record(st, WalRecord::TableStart { name }),
                )
            } else {
                ReplayResult::Corrupt
            }
        } else if tag == 3 {
            if can_read_vec(data, pos + 1) && ascii_name(read_vec_bytes(data, pos + 1)) {
                let name = read_vec_bytes(data, pos + 1);
                spec_replay_from(
                    data,
                    after_vec(data, pos + 1),
                    apply_record(st, WalRecord::TableEnd { name }),
                )
            } else {
                ReplayResult::Corrupt
            }
        } else {
            ReplayResult::Corrupt
        }
    }
}

/// Replay a whole log.
pub open spec fn spec_replay(data: Seq<u8>) -> ReplayResult {
    spec_replay_from(data, 0, init_state())
}

/// Append one length-prefixed byte string.
fn push_vec_bytes(out: &mut Vec<u8>, b: &[u8])
    requires
        b@.len() < 0x100000000,
    ensures
        final(out)@ == old(out)@ + spec_vec_bytes(b@),
{
    push_be32(out, b.len() as u32);
    out.extend_from_slice(b);
    proof {
        assert(out@ =~= old(out)@ + spec_vec_bytes(b@));
    }
}

/// The framed bytes of a put.
pub fn encode_put_record(key: &[u8], value: &[u8]) -> (r: Vec<u8>)
    requires
        key@.len() < 0x100000000,
        value@.len() < 0x100000000,
    ensures
        r@ == spec_record_bytes(WalRecord::Put { key: key@, value: value@ }),
{
    let mut out: Vec<u8> = Vec::new();
    out.push(0u8);
    push_vec_bytes(&mut out, key);
    push_vec_bytes(&mut out, value);
    proof {
        assert(out@ =~= spec_record_bytes(WalRecord::Put { key: key@, value: value@ }));
    }
    out
}

/// The framed bytes of a delete.
pub fn encode_delete_record(key: &[u8]) -> (r: Vec<u8>)
    requires
        key@.len() < 0x100000000,
    ensures
        r@ == spec_record_bytes(WalRecord::Delete { key: key@ }),
{
    let mut out: Vec<u8> = Vec::new();
    out.push(1u8);
    push_vec_bytes(&mut out, key);
    proof {
        assert(out@ =~= spec_record_bytes(WalRecord::Delete { key: key@ }));
    }
    out
}

/// The framed bytes of a table-materialization start.
pub fn encode_table_start_record(name: &[u8]) -> (r: Vec<u8>)
    requires
        name@.len() < 0x100000000,
    ensures
        r@ == spec_record_bytes(WalRecord::TableStart { name: name@ }),
{
    let mut out: Vec<u8> = Vec::new();
    out.push(2u8);
    push_vec_bytes(&mut out, name);
    proof {
        assert(out@ =~= spec_record_bytes(WalRecord::TableStart { name: name@ }));
    }
    out
}

/// The framed bytes of a table-materialization end.
pub fn encode_table_end_record(name: &[u8]) -> (r: Vec<u8>)
    requires
        name@.len() < 0x100000000,
    ensures
        r@ == spec_record_bytes(WalRecord::TableEnd { name: name@ }),
{
    let mut out: Vec<u8> = Vec::new();
    out.push(3u8);
    push_vec_bytes(&mut out, name);
    proof {
        assert(out@ =~= spec_record_bytes(WalRecord::TableEnd { name: name@ }));
    }
    out
}

/// The set of names a name list denotes.
pub open spec fn names_set(names: Seq<Vec<u8>>) -> Set<Seq<u8>> {
    Set::new(|k: Seq<u8>| exists|i: int| 0 <= i < names.len() && (#[trigger] names[i])@ == k)
}

/// Find a name in a list.
pub(crate) fn names_find(names: &Vec<Vec<u8>>, name: &[u8]) -> (r: Option<usize>)
    ensures
        match r {
            Some(i) => i < names@.len() && (names@[i as int])@ == name@,
            None => forall|j: int| 0 <= j < names@.len() ==> (#[trigger] names@[j])@ != name@,
        },
{
    let n = names.len();
    let mut i: usize = 0;
    while i < n
        invariant
            0 <= i <= n,
            n == names@.len(),
            forall|j: int| 0 <= j < i ==> (#[trigger] names@[j])@ != name@,
        decreases n - i,
    {
        match compare_keys(names[i].as_slice(), name) {
            KeyCmp::Equal => {
                return Some(i);
            },
            _ => {},
        }
        i = i + 1;
    }
    None
}

/// Whether every byte is ASCII.
fn is_ascii_bytes(b: &[u8]) -> (r: bool)
    ensures
        r == ascii_name(b@),
{
    let n = b.len();
    let mut i: usize = 0;
    while i < n
        invariant
            0 <= i <= n,
            n == b@.len(),
            forall|j: int| 0 <= j < i ==> b@[j] < 128,
        decreases n - i,
    {
        if b[i] >= 128 {
            return false;
        }
        i = i + 1;
    }
    true
}

/// What a replay run produced.
pub struct ReplayOutcome {
    pub table: MemTable,
    pub incomplete: Vec<Vec<u8>>,
}

/// Read one length-prefixed byte string at `offset`; an end of input
/// inside it is corruption.
fn read_vec<R: ReadAt>(file: &R, offset: u64) -> (r: Result<(Vec<u8>, u64), Error>)
    ensures
        r matches Ok(p) ==> {
            &&& can_read_vec(file.data(), offset as int)
            &&& p.0@ == read_vec_bytes(file.data(), offset as int)
            &&& p.1 == after_vec(file.data(), offset as int)
            &&& p.1 <= file.data().len()
            &&& p.0@.len() < 0x100000000
        },
        r matches Err(e) ==> (e matches Error::InvalidDatabase(_) ==> !can_read_vec(
            file.data(),
            offset as int,
        )),
{
    if offset > u64::MAX - 4 {
        return Err(Error::IoError(IoError::Other));
    }
    let len_bytes = match file.read_exact_at(offset, 4) {
        Ok(b) => b,
        Err(IoError::UnexpectedEof) => {
            return Err(Error::InvalidDatabase("Unexpected end of WAL record".to_owned()));
        },
        Err(e) => {
            return Err(Error::IoError(e));
        },
    };
    let len = be32_decode(len_bytes.as_slice());
    if offset + 4 > u64::MAX - (len as u64) {
        return Err(Error::IoError(IoError::Other));
    }
    let b = match file.read_exact_at(offset + 4, len as usize) {
        Ok(b) => b,
        Err(IoError::UnexpectedEof) => {
            return Err(Error::InvalidDatabase("Unexpected end of WAL record".to_owned()));
        },
        Err(e) => {
            return Err(Error::IoError(e));
        },
    };
    Ok((b, offset + 4 + (len as u64)))
}

/// Replay a whole log read through `wal`, rebuilding the table and
/// collecting the names of incompletely materialized tables.
pub fn replay_wal<R: ReadAt>(wal: &R) -> (r: Result<ReplayOutcome, Error>)
    ensures
        r matches Ok(out) ==> {
            &&& spec_replay(wal.data()) == ReplayResult::Valid(
                ReplayState { table: out.table@, incomplete: names_set(out.incomplete@) },
            )
            &&& out.table.wf()
            &&& bounded_map(out.table@)
            &&& forall|i: int, j: int|
                0 <= i < j < out.incomplete@.len() ==> (#[trigger] out.incomplete@[i])@ != (
                #[trigger] out.incomplete@[j])@
        },
        r matches Err(e) ==> (e matches Error::InvalidDatabase(_) ==> spec_replay(wal.data())
            is Corrupt),
{
    let ghost data = wal.data();
    let mut table = MemTable { entries: Vec::new() };
    let mut incomplete: Vec<Vec<u8>> = Vec::new();
    let mut offset: u64 = 0;
    proof {
        assert(table.entries_view() =~= Seq::<(Seq<u8>, Seq<u8>)>::empty());
        assert(table@ =~= Map::<Seq<u8>, Seq<u8>>::empty());
        assert(names_set(incomplete@) =~= Set::<Seq<u8>>::empty());
    }
    loop
        invariant
            0 <= offset <= data.len(),
            data == wal.data(),
            table.wf(),
            bounded_map(table@),
            forall|i: int, j: int|
                0 <= i < j < incomplete@.len() ==> (#[trigger] incomplete@[i])@ != (
                #[trigger] incomplete@[j])@,
            spec_replay(data) == spec_replay_from(
                data,
                offset as int,
                ReplayState { table: table@, incomplete: names_set(incomplete@) },
            ),
        decreases data.len() - offset,
    {
        let ghost st = ReplayState { table: table@, incomplete: names_set(incomplete@) };
        let tag_bytes = match wal.read_exact_at(offset, 1) {
            Ok(b) => b,
            Err(IoError::UnexpectedEof) => {
                proof {
                    assert(offset == data.len());
                }
                return Ok(ReplayOutcome { table, incomplete });
            },
            Err(e) => {
                return Err(Error::IoError(e));
            },
        };
        let tag = tag_bytes[0];
        proof {
            assert(tag == data[offset as int]);
        }
        if offset == u64::MAX {
            return Err(Error::IoError(IoError::Other));
        }
        if tag == 0 {
            let (key, p2) = match read_vec(wal, offset + 1) {
                Ok(p) => p,
                Err(e) => {
                    return Err(e);
                },
            };
            let (value, p3) = match read_vec(wal, p2) {
                Ok(p) => p,
                Err(e) => {
                    return Err(e);
                },
            };
            let ghost kview = key@;
            table.put(key.as_slice(), value);
            proof {
                assert forall|k: Seq<u8>| #[trigger] table@.contains_key(k) implies k.len()
                    < 0x100000000 && table@[k].len() < 0x100000000 by {
                    if k != kview {
                        assert(st.table.contains_key(k) && st.table[k] == table@[k]);
                    }
                }
            }
            offset = p3;
        } else if tag == 1 {
            let (key, p2) = match read_vec(wal, offset + 1) {
                Ok(p) => p,
                Err(e) => {
                    return Err(e);
                },
            };
            let ghost kview = key@;
            table.delete(key.as_slice());
            proof {
                assert forall|k: Seq<u8>| #[trigger] table@.contains_key(k) implies k.len()
                    < 0x100000000 && table@[k].len() < 0x100000000 by {
                    assert(st.table.contains_key(k) && st.table[k] == table@[k]);
                }
            }
            offset = p2;
        } else if tag == 2 {
            let (name, p2) = match read_vec(wal, offset + 1) {
                Ok(p) => p,
                Err(e) => {
                    return Err(e);
                },
            };
            if !is_ascii_bytes(name.as_slice()) {
                return Err(Error::InvalidDatabase("Invalid table name in WAL".to_owned()));
            }
            match names_find(&incomplete, name.as_slice()) {
                Some(_) => {
                    proof {
                        assert(names_set(incomplete@) =~= st.incomplete.insert(name@));
                    }
                },
                None => {
                    let ghost before = incomplete@;
                    incomplete.push(name);
                    proof {
                        assert forall|k: Seq<u8>|
                            names_set(incomplete@).contains(k)
                                == st.incomplete.insert(name@).contains(k) by {
                            if exists|i: int|
                                0 <= i < incomplete@.len() && (#[trigger] incomplete@[i])@ == k {
                                let i = choose|i: int|
                                    0 <= i < incomplete@.len() && (#[trigger] incomplete@[i])@
                                        == k;
                                if i < before.len() {
                                    assert(before[i]@ == k);
                                }
                            }
                            if st.incomplete.contains(k) {
                                let i = choose|i: int|
                                    0 <= i < before.len() && (#[trigger] before[i])@ == k;
                                assert(incomplete@[i]@ == k);
                            }
                            if k == name@ {
                                assert(incomplete@[before.len() as int]@ == k);
                            }
                        }
                        assert(names_set(incomplete@) =~= st.incomplete.insert(name@));
                    }
                },
            }
            offset = p2;
        } else if tag == 3 {
            let (name, p2) = match read_vec(wal, offset + 1) {
                Ok(p) => p,
                Err(e) => {
                    return Err(e);
                },
            };
            if !is_ascii_bytes(name.as_slice()) {
                return Err(Error::InvalidDatabase("Invalid table name in WAL".to_owned()));
            }
            match names_find(&incomplete, name.as_slice()) {
                Some(i) => {
                    let ghost before = incomplete@;
                    incomplete.remove(i);
                    proof {
                        assert forall|k: Seq<u8>|
                            names_set(incomplete@).contains(k) == st.incomplete.remove(
                                name@,
                            ).contains(k) by {
                            if exists|j: int|
                                0 <= j < incomplete@.len() && (#[trigger] incomplete@[j])@ == k {
                                let j = choose|j: int|
                                    0 <= j < incomplete@.len() && (#[trigger] incomplete@[j])@
                                        == k;
                                if j < i {
                                    assert(before[j]@ == k);
                                    assert(before[j]@ != name@);
                                } else {
                                    assert(before[j + 1]@ == k);
                                    assert(before[j + 1]@ != name@);
                                }
                            }
                            if st.incomplete.remove(name@).contains(k) {
                                let j = choose|j: int|
                                    0 <= j < before.len() && (#[trigger] before[j])@ == k;
                                assert(before[i as int]@ == name@);
                                assert(j != i);
                                if j < i {
                                    assert(incomplete@[j]@ == k);
                                } else {
                                    assert(incomplete@[j - 1]@ == k);
                                }
                            }
                        }
                        assert(names_set(incomplete@) =~= st.incomplete.remove(name@));
                    }
                },
                None => {
                    proof {
                        assert(!st.incomplete.contains(name@));
                        assert(names_set(incomplete@) =~= st.incomplete.remove(name@));
                    }
                },
            }
            offset = p2;
        } else {
            return Err(Error::InvalidDatabase("Invalid WAL entry type".to_owned()));
        }
    }
}


/// A byte string framed at `q` can be read back whole.
proof fn lemma_vec_at(data: Seq<u8>, q: int, b: Seq<u8>)
    requires
        0 <= q,
        b.len() < 0x100000000,
        q + 4 + b.len() <= data.len(),
        data.subrange(q, q + 4 + b.len() as int) == spec_vec_bytes(b),
    ensures
        can_read_vec(data, q),
        read_vec_bytes(data, q) == b,
        after_vec(data, q) == q + 4 + b.len(),
{
    lemma_be32_round_trip(b.len() as u32);
    assert(data.subrange(q, q + 4) =~= data.subrange(q, q + 4 + b.len() as int).subrange(0, 4));
    assert(data.subrange(q, q + 4) =~= spec_be32(b.len() as u32));
    assert(spec_be32_decode(data.subrange(q, q + 4)) == b.len());
    assert(data.subrange(q + 4, q + 4 + b.len() as int) =~= data.subrange(
        q,
        q + 4 + b.len() as int,
    ).subrange(4, 4 + b.len() as int));
    assert(data.subrange(q + 4, q + 4 + b.len() as int) =~= b);
}

/// Reading a framed byte string sees only bytes before the log's end,
/// so appending afterwards does not disturb it.
proof fn lemma_read_vec_prefix(w: Seq<u8>, ext: Seq<u8>, p: int)
    requires
        0 <= p,
        can_read_vec(w, p),
    ensures
        can_read_vec(w + ext, p),
        read_vec_bytes(w + ext, p) == read_vec_bytes(w, p),
        after_vec(w + ext, p) == after_vec(w, p),
{
    let data = w + ext;
    assert(data.subrange(p, p + 4) =~= w.subrange(p, p + 4));
    let l = spec_be32_decode(w.subrange(p, p + 4)) as int;
    assert(data.subrange(p + 4, p + 4 + l) =~= w.subrange(p + 4, p + 4 + l));
}

/// A valid replay of a log is undisturbed by bytes appended after it:
/// the replay of the longer log continues from the old log's end.
proof fn lemma_replay_from_append(w: Seq<u8>, ext: Seq<u8>, pos: int, st: ReplayState)
    requires
        0 <= pos <= w.len(),
        spec_replay_from(w, pos, st) is Valid,
    ensures
        spec_replay_from(w + ext, pos, st) == spec_replay_from(
            w + ext,
            w.len() as int,
            spec_replay_from(w, pos, st).state(),
        ),
    decreases w.len() - pos,
{
    let data = w + ext;
    if pos < w.len() {
        let tag = w[pos];
        assert(data[pos] == tag);
        if tag == 0 {
            assert(can_read_vec(w, pos + 1) && can_read_vec(w, after_vec(w, pos + 1)));
            lemma_read_vec_prefix(w, ext, pos + 1);
            lemma_read_vec_prefix(w, ext, after_vec(w, pos + 1));
            let key = read_vec_bytes(w, pos + 1);
            let p2 = after_vec(w, pos + 1);
            let value = read_vec_bytes(w, p2);
            lemma_replay_from_append(
                w,
                ext,
                after_vec(w, p2),
                apply_record(st, WalRecord::Put { key, value }),
            );
        } else if tag == 1 {
            assert(can_read_vec(w, pos + 1));
            lemma_read_vec_prefix(w, ext, pos + 1);
            let key = read_vec_bytes(w, pos + 1);
            lemma_replay_from_append(
                w,
                ext,
                after_vec(w, pos + 1),
                apply_record(st, WalRecord::Delete { key }),
            );
        } else if tag == 2 {
            assert(can_read_vec(w, pos + 1) && ascii_name(read_vec_bytes(w, pos + 1)));
            lemma_read_vec_prefix(w, ext, pos + 1);
            let name = read_vec_bytes(w, pos + 1);
            lemma_replay_from_append(
                w,
                ext,
                after_vec(w, pos + 1),
                apply_record(st, WalRecord::TableStart { name }),
            );
        } else if tag == 3 {
            assert(can_read_vec(w, pos + 1) && ascii_name(read_vec_bytes(w, pos + 1)));
            lemma_read_vec_prefix(w, ext, pos + 1);
            let name = read_vec_bytes(w, pos + 1);
            lemma_replay_from_append(
                w,
                ext,
                after_vec(w, pos + 1),
                apply_record(st, WalRecord::TableEnd { name }),
            );
        } else {
            assert(false);
        }
    }
}

/// A single valid record appended at the log's end replays as that
/// record's effect.
proof fn lemma_replay_record_at(w: Seq<u8>, r: WalRecord, st: ReplayState)
    requires
        valid_record(r),
    ensures
        spec_replay_from(w + spec_record_bytes(r), w.len() as int, st) == ReplayResult::Valid(
            apply_record(st, r),
        ),
{
    let enc = spec_record_bytes(r);
    let data = w + enc;
    let pos = w.len() as int;
    match r {
        WalRecord::Put { key, value } => {
            assert(data[pos] == 0);
            assert(data.subrange(pos + 1, pos + 5 + key.len() as int) =~= spec_vec_bytes(key));
            lemma_vec_at(data, pos + 1, key);
            let p2 = pos + 5 + key.len() as int;
            assert(data.subrange(p2, p2 + 4 + value.len() as int) =~= spec_vec_bytes(value));
            lemma_vec_at(data, p2, value);
            assert(p2 + 4 + value.len() == data.len());
            assert(spec_replay_from(data, data.len() as int, apply_record(st, r))
                == ReplayResult::Valid(apply_record(st, r)));
        },
        WalRecord::Delete { key } => {
            assert(data[pos] == 1);
            assert(data.subrange(pos + 1, pos + 5 + key.len() as int) =~= spec_vec_bytes(key));
            lemma_vec_at(data, pos + 1, key);
            assert(pos + 5 + key.len() == data.len());
            assert(spec_replay_from(data, data.len() as int, apply_record(st, r))
                == ReplayResult::Valid(apply_record(st, r)));
        },
        WalRecord::TableStart { name } => {
            assert(data[pos] == 2);
            assert(data.subrange(pos + 1, pos + 5 + name.len() as int) =~= spec_vec_bytes(name));
            lemma_vec_at(data, pos + 1, name);
            assert(pos + 5 + name.len() == data.len());
            assert(spec_replay_from(data, data.len() as int, apply_record(st, r))
                == ReplayResult::Valid(apply_record(st, r)));
        },
        WalRecord::TableEnd { name } => {
            assert(data[pos] == 3);
            assert(data.subrange(pos + 1, pos + 5 + name.len() as int) =~= spec_vec_bytes(name));
            lemma_vec_at(data, pos + 1, name);
            assert(pos + 5 + name.len() == data.len());
            assert(spec_replay_from(data, data.len() as int, apply_record(st, r))
                == ReplayResult::Valid(apply_record(st, r)));
        },
    }
}

/// Appending one valid record to a cleanly replayable log keeps it
/// cleanly replayable, and applies exactly that record's effect.
pub proof fn lemma_replay_append(w: Seq<u8>, r: WalRecord)
    requires
        spec_replay(w) is Valid,
        valid_record(r),
    ensures
        spec_replay(w + spec_record_bytes(r)) == ReplayResult::Valid(
            apply_record(spec_replay(w).state(), r),
        ),
{
    lemma_replay_from_append(w, spec_record_bytes(r), 0, init_state());
    lemma_replay_record_at(w, r, spec_replay(w).state());
}

/// Record sequences encode one record after another.
proof fn lemma_records_bytes_snoc(rs: Seq<WalRecord>, r: WalRecord)
    ensures
        spec_records_bytes(rs.push(r)) == spec_records_bytes(rs) + spec_record_bytes(r),
    decreases rs.len(),
{
    if rs.len() == 0 {
        assert(rs.push(r)[0] == r);
        assert(rs.push(r).skip(1) =~= Seq::<WalRecord>::empty());
        assert(spec_records_bytes(Seq::<WalRecord>::empty()) =~= Seq::<u8>::empty());
        assert(spec_records_bytes(rs.push(r)) =~= spec_record_bytes(r));
        assert(spec_records_bytes(rs) + spec_record_bytes(r) =~= spec_record_bytes(r));
    } else {
        assert(rs.push(r)[0] == rs[0]);
        assert(rs.push(r).skip(1) =~= rs.skip(1).push(r));
        lemma_records_bytes_snoc(rs.skip(1), r);
        assert(spec_records_bytes(rs.push(r)) =~= spec_records_bytes(rs) + spec_record_bytes(r));
    }
}

/// Replaying the encoding of a valid record sequence succeeds and has
/// the effect of applying the records in order.
pub proof fn lemma_replay_of_records(rs: Seq<WalRecord>)
    requires
        forall|i: int| 0 <= i < rs.len() ==> valid_record(#[trigger] rs[i]),
    ensures
        spec_replay(spec_records_bytes(rs)) == ReplayResult::Valid(replay_records(rs)),
    decreases rs.len(),
{
    if rs.len() == 0 {
    } else {
        let dl = rs.drop_last();
        assert(forall|i: int| 0 <= i < dl.len() ==> dl[i] == rs[i]);
        lemma_replay_of_records(dl);
        lemma_records_bytes_snoc(dl, rs.last());
        assert(dl.push(rs.last()) =~= rs);
        lemma_replay_append(spec_records_bytes(dl), rs.last());
    }
}

/// After a put is logged, replaying the log from scratch yields a
/// table that maps that key to that value.
pub proof fn lemma_wal_before_memtable(w: Seq<u8>, key: Seq<u8>, value: Seq<u8>)
    requires
        spec_replay(w) is Valid,
        key.len() < 0x100000000,
        value.len() < 0x100000000,
    ensures
        spec_replay(w + spec_record_bytes(WalRecord::Put { key, value })) is Valid,
        spec_replay(
            w + spec_record_bytes(WalRecord::Put { key, value }),
        ).state().table.contains_key(key),
        spec_replay(w + spec_record_bytes(WalRecord::Put { key, value })).state().table[key]
            == value,
{
    lemma_replay_append(w, WalRecord::Put { key, value });
}

/// A table whose materialization was started but never witnessed
/// complete is in the incomplete set after replay.
pub proof fn lemma_incomplete_flush(rs: Seq<WalRecord>, i: int, name: Seq<u8>)
    requires
        0 <= i < rs.len(),
        rs[i] == (WalRecord::TableStart { name }),
        forall|j: int| i < j < rs.len() ==> rs[j] != (WalRecord::TableEnd { name }),
    ensures
        replay_records(rs).incomplete.contains(name),
    decreases rs.len(),
{
    if i == rs.len() - 1 {
    } else {
        let dl = rs.drop_last();
        assert(forall|j: int| 0 <= j < dl.len() ==> dl[j] == rs[j]);
        lemma_incomplete_flush(dl, i, name);
        match rs.last() {
            WalRecord::TableEnd { name: other } => {
                assert(rs[rs.len() - 1] != (WalRecord::TableEnd { name }));
                assert(other != name);
            },
            _ => {},
        }
    }
}


/// Reading a framed byte string is position-independent: the same
/// bytes at a shifted position read the same.
proof fn lemma_read_vec_shift(w: Seq<u8>, x: Seq<u8>, p: int)
    requires
        0 <= p <= x.len(),
    ensures
        can_read_vec(w + x, w.len() + p) == can_read_vec(x, p),
        can_read_vec(x, p) ==> read_vec_bytes(w + x, w.len() + p) == read_vec_bytes(x, p)
            && after_vec(w + x, w.len() + p) == w.len() + after_vec(x, p),
{
    let data = w + x;
    let q = w.len() + p;
    if p + 4 <= x.len() {
        assert(data.subrange(q, q + 4) =~= x.subrange(p, p + 4));
        let l = spec_be32_decode(x.subrange(p, p + 4)) as int;
        if p + 4 + l <= x.len() {
            assert(data.subrange(q + 4, q + 4 + l) =~= x.subrange(p + 4, p + 4 + l));
        }
    }
}

/// Replay is position-independent: bytes replay the same wherever the
/// log starts.
#[verifier::rlimit(100)]
#[verifier::spinoff_prover]
proof fn lemma_replay_shift(w: Seq<u8>, x: Seq<u8>, p: int, st: ReplayState)
    requires
        0 <= p <= x.len(),
    ensures
        spec_replay_from(w + x, w.len() + p, st) == spec_replay_from(x, p, st),
    decreases x.len() - p,
{
    let data = w + x;
    if p < x.len() {
        assert(data[w.len() + p] == x[p]);
        let tag = x[p];
        lemma_read_vec_shift(w, x, p + 1);
        if tag == 0 {
            if can_read_vec(x, p + 1) {
                lemma_read_vec_shift(w, x, after_vec(x, p + 1));
                if can_read_vec(x, after_vec(x, p + 1)) {
                    let key = read_vec_bytes(x, p + 1);
                    let p2 = after_vec(x, p + 1);
                    let value = read_vec_bytes(x, p2);
                    lemma_replay_shift(
                        w,
                        x,
                        after_vec(x, p2),
                        apply_record(st, WalRecord::Put { key, value }),
                    );
                }
            }
        } else if tag == 1 {
            if can_read_vec(x, p + 1) {
                lemma_replay_shift(
                    w,
                    x,
                    after_vec(x, p + 1),
                    apply_record(st, WalRecord::Delete { key: read_vec_bytes(x, p + 1) }),
                );
            }
        } else if tag == 2 {
            if can_read_vec(x, p + 1) && ascii_name(read_vec_bytes(x, p + 1)) {
                lemma_replay_shift(
                    w,
                    x,
                    after_vec(x, p + 1),
                    apply_record(st, WalRecord::TableStart { name: read_vec_bytes(x, p + 1) }),
                );
            }
        } else if tag == 3 {
            if can_read_vec(x, p + 1) && ascii_name(read_vec_bytes(x, p + 1)) {
                lemma_replay_shift(
                    w,
                    x,
                    after_vec(x, p + 1),
                    apply_record(st, WalRecord::TableEnd { name: read_vec_bytes(x, p + 1) }),
                );
            }
        }
    }
}

/// A record with some of its trailing bytes missing replays as
/// corruption: each read follows the record's own framing, and some
/// read runs past the cut.
#[verifier::rlimit(100)]
#[verifier::spinoff_prover]
proof fn lemma_replay_cut_record(r: WalRecord, cut: Seq<u8>, st: ReplayState)
    requires
        valid_record(r),
        1 <= cut.len() < spec_record_bytes(r).len(),
        cut == spec_record_bytes(r).take(cut.len() as int),
    ensures
        spec_replay_from(cut, 0, st) is Corrupt,
{
    let enc = spec_record_bytes(r);
    let cl = cut.len() as int;
    assert(cut[0] == enc[0]);
    match r {
        WalRecord::Put { key, value } => {
            assert(cut[0] == 0);
            if cl < 5 {
                assert(!can_read_vec(cut, 1));
            } else {
                assert(cut.subrange(1, 5) =~= spec_be32(key.len() as u32));
                lemma_be32_round_trip(key.len() as u32);
                if cl < 5 + key.len() {
                    assert(!can_read_vec(cut, 1));
                } else {
                    assert(can_read_vec(cut, 1));
                    assert(after_vec(cut, 1) == 5 + key.len());
                    let p2 = 5 + key.len() as int;
                    if cl < p2 + 4 {
                        assert(!can_read_vec(cut, p2));
                    } else {
                        assert(cut.subrange(p2, p2 + 4) =~= spec_be32(value.len() as u32));
                        lemma_be32_round_trip(value.len() as u32);
                        assert(cl < p2 + 4 + value.len());
                        assert(!can_read_vec(cut, p2));
                    }
                }
            }
        },
        WalRecord::Delete { key } => {
            assert(cut[0] == 1);
            if cl < 5 {
                assert(!can_read_vec(cut, 1));
            } else {
                assert(cut.subrange(1, 5) =~= spec_be32(key.len() as u32));
                lemma_be32_round_trip(key.len() as u32);
                assert(cl < 5 + key.len());
                assert(!can_read_vec(cut, 1));
            }
        },
        WalRecord::TableStart { name } => {
            assert(cut[0] == 2);
            if cl < 5 {
                assert(!can_read_vec(cut, 1));
            } else {
                assert(cut.subrange(1, 5) =~= spec_be32(name.len() as u32));
                lemma_be32_round_trip(name.len() as u32);
                assert(cl < 5 + name.len());
                assert(!can_read_vec(cut, 1));
            }
        },
        WalRecord::TableEnd { name } => {
            assert(cut[0] == 3);
            if cl < 5 {
                assert(!can_read_vec(cut, 1));
            } else {
                assert(cut.subrange(1, 5) =~= spec_be32(name.len() as u32));
                lemma_be32_round_trip(name.len() as u32);
                assert(cl < 5 + name.len());
                assert(!can_read_vec(cut, 1));
            }
        },
    }
}

/// A complete record at the front of a log replays as its effect and
/// the rest continues after it.
#[verifier::rlimit(100)]
#[verifier::spinoff_prover]
proof fn lemma_replay_record_front(r: WalRecord, x: Seq<u8>, st: ReplayState)
    requires
        valid_record(r),
    ensures
        spec_replay_from(spec_record_bytes(r) + x, 0, st) == spec_replay_from(
            spec_record_bytes(r) + x,
            spec_record_bytes(r).len() as int,
            apply_record(st, r),
        ),
{
    let enc = spec_record_bytes(r);
    let data = enc + x;
    match r {
        WalRecord::Put { key, value } => {
            assert(data[0] == 0);
            assert(data.subrange(1, 5 + key.len() as int) =~= spec_vec_bytes(key));
            lemma_vec_at(data, 1, key);
            let p2 = 5 + key.len() as int;
            assert(data.subrange(p2, p2 + 4 + value.len() as int) =~= spec_vec_bytes(value));
            lemma_vec_at(data, p2, value);
            assert(p2 + 4 + value.len() == enc.len());
        },
        WalRecord::Delete { key } => {
            assert(data[0] == 1);
            assert(data.subrange(1, 5 + key.len() as int) =~= spec_vec_bytes(key));
            lemma_vec_at(data, 1, key);
            assert(5 + key.len() == enc.len());
        },
        WalRecord::TableStart { name } => {
            assert(data[0] == 2);
            assert(data.subrange(1, 5 + name.len() as int) =~= spec_vec_bytes(name));
            lemma_vec_at(data, 1, name);
            assert(5 + name.len() == enc.len());
        },
        WalRecord::TableEnd { name } => {
            assert(data[0] == 3);
            assert(data.subrange(1, 5 + name.len() as int) =~= spec_vec_bytes(name));
            lemma_vec_at(data, 1, name);
            assert(5 + name.len() == enc.len());
        },
    }
}

/// Crash safety: replaying any truncation of an encoded record
/// sequence, from any starting state, either stops cleanly with the
/// state of the records before the cut, or reports corruption; it
/// never yields a state no record prefix explains.
#[verifier::rlimit(100)]
#[verifier::spinoff_prover]
pub proof fn lemma_crash_safety_from(rs: Seq<WalRecord>, j: int, st: ReplayState)
    requires
        forall|i: int| 0 <= i < rs.len() ==> valid_record(#[trigger] rs[i]),
        0 <= j <= spec_records_bytes(rs).len(),
    ensures
        spec_replay_from(spec_records_bytes(rs).take(j), 0, st) is Corrupt || exists|i: int|
            0 <= i <= rs.len() && j == spec_records_bytes(#[trigger] rs.take(i)).len()
                && spec_replay_from(spec_records_bytes(rs).take(j), 0, st)
                == ReplayResult::Valid(replay_records_from(rs.take(i), st)),
    decreases rs.len(),
{
    let data = spec_records_bytes(rs);
    if j == 0 {
        assert(rs.take(0) =~= Seq::<WalRecord>::empty());
        assert(data.take(0) =~= Seq::<u8>::empty());
        assert(spec_records_bytes(rs.take(0)) =~= Seq::<u8>::empty());
        assert(replay_records_from(rs.take(0), st) == st);
    } else {
        assert(rs.len() > 0);
        let r0 = rs[0];
        let rest = rs.skip(1);
        let e0 = spec_record_bytes(r0);
        assert(data == e0 + spec_records_bytes(rest));
        if j < e0.len() {
            assert(data.take(j) =~= e0.take(j));
            lemma_replay_cut_record(r0, data.take(j), st);
        } else {
            let tail = spec_records_bytes(rest).take(j - e0.len());
            assert(data.take(j) =~= e0 + tail);
            lemma_replay_record_front(r0, tail, st);
            lemma_replay_shift(e0, tail, 0, apply_record(st, r0));
            lemma_crash_safety_from(rest, j - e0.len(), apply_record(st, r0));
            if spec_replay_from(tail, 0, apply_record(st, r0)) is Corrupt {
            } else {
                let i = choose|i: int|
                    0 <= i <= rest.len() && j - e0.len() == spec_records_bytes(
                        #[trigger] rest.take(i),
                    ).len() && spec_replay_from(tail, 0, apply_record(st, r0))
                        == ReplayResult::Valid(replay_records_from(rest.take(i), apply_record(st, r0)));
                assert(rs.take(i + 1) =~= seq![r0] + rest.take(i));
                lemma_records_bytes_cons(r0, rest.take(i));
                lemma_replay_records_from_cons(r0, rest.take(i), st);
                assert(j == spec_records_bytes(rs.take(i + 1)).len());
            }
        }
    }
}

/// The effect of records applied in order from a starting state.
pub open spec fn replay_records_from(rs: Seq<WalRecord>, st: ReplayState) -> ReplayState
    decreases rs.len(),
{
    if rs.len() == 0 {
        st
    } else {
        apply_record(replay_records_from(rs.drop_last(), st), rs.last())
    }
}

/// Encoding a sequence with a first record prepends its bytes.
proof fn lemma_records_bytes_cons(r: WalRecord, rest: Seq<WalRecord>)
    ensures
        spec_records_bytes(seq![r] + rest) == spec_record_bytes(r) + spec_records_bytes(rest),
{
    let rs = seq![r] + rest;
    assert(rs[0] == r);
    assert(rs.skip(1) =~= rest);
}

/// Replaying from a state with a first record applies it first.
proof fn lemma_replay_records_from_cons(r: WalRecord, rest: Seq<WalRecord>, st: ReplayState)
    ensures
        replay_records_from(seq![r] + rest, st) == replay_records_from(rest, apply_record(st, r)),
    decreases rest.len(),
{
    let rs = seq![r] + rest;
    if rest.len() == 0 {
        assert(rs.drop_last() =~= Seq::<WalRecord>::empty());
        assert(rs.last() == r);
        assert(replay_records_from(Seq::<WalRecord>::empty(), st) == st);
        assert(replay_records_from(rest, apply_record(st, r)) == apply_record(st, r));
    } else {
        assert(rs.drop_last() =~= seq![r] + rest.drop_last());
        assert(rs.last() == rest.last());
        lemma_replay_records_from_cons(r, rest.drop_last(), st);
        assert(replay_records_from(rest, apply_record(st, r)) == apply_record(
            replay_records_from(rest.drop_last(), apply_record(st, r)),
            rest.last(),
        ));
    }
}

/// Crash safety for a whole log: any truncation of an encoded record
/// sequence replays either to the state of the longest record prefix
/// the cut preserves, or to corruption.
pub proof fn lemma_crash_safety(rs: Seq<WalRecord>, j: int)
    requires
        forall|i: int| 0 <= i < rs.len() ==> valid_record(#[trigger] rs[i]),
        0 <= j <= spec_records_bytes(rs).len(),
    ensures
        spec_replay(spec_records_bytes(rs).take(j)) is Corrupt || exists|i: int|
            0 <= i <= rs.len() && j == spec_records_bytes(#[trigger] rs.take(i)).len()
                && spec_replay(spec_records_bytes(rs).take(j)) == ReplayResult::Valid(
                replay_records(rs.take(i)),
            ),
{
    lemma_crash_safety_from(rs, j, init_state());
    lemma_replay_records_eq_from(rs, j);
}

/// Replay from the initial state is plain replay.
proof fn lemma_replay_records_eq_from(rs: Seq<WalRecord>, j: int)
    ensures
        forall|i: int|
            0 <= i <= rs.len() ==> replay_records_from(#[trigger] rs.take(i), init_state())
                == replay_records(rs.take(i)),
{
    assert forall|i: int| 0 <= i <= rs.len() implies replay_records_from(
        #[trigger] rs.take(i),
        init_state(),
    ) == replay_records(rs.take(i)) by {
        lemma_replay_from_init(rs.take(i));
    }
}

proof fn lemma_replay_from_init(rs: Seq<WalRecord>)
    ensures
        replay_records_from(rs, init_state()) == replay_records(rs),
    decreases rs.len(),
{
    if rs.len() > 0 {
        lemma_replay_from_init(rs.drop_last());
    }
}

} // verus!
