//! The in-memory sorted table: a vector of key-value entries kept in
//! strictly increasing key order, mutated by `put` and `delete` and
//! queried by binary search.

use vstd::prelude::*;

use crate::kvmap::entries_view;
use crate::kvmap::in_range;
use crate::kvmap::lemma_map_of_index;
use crate::kvmap::lemma_map_of_insert_at;
use crate::kvmap::lemma_map_of_key;
use crate::kvmap::lemma_map_of_remove_at;
use crate::kvmap::lemma_map_of_update;
use crate::kvmap::lemma_sorted_implies_unique;
use crate::kvmap::map_of;
use crate::kvmap::range_of;
use crate::kvmap::sorted_by_key;
use crate::order::compare_keys;
use crate::order::lemma_lex_trichotomy;
use crate::order::lex_lt;
use crate::order::KeyCmp;
use vstd::slice::slice_to_vec;

verus! {

/// An ordered in-memory key-value map.
pub struct MemTable {
    pub entries: Vec<(Vec<u8>, Vec<u8>)>,
}

impl Default for MemTable {
    /// The empty table.
    fn default() -> (r: MemTable)
        ensures
            r.wf(),
            r@ == Map::<Seq<u8>, Seq<u8>>::empty(),
            r.entries@.len() == 0,
    {
        let r = MemTable { entries: Vec::new() };
        proof {
            assert(r.entries_view() =~= Seq::<(Seq<u8>, Seq<u8>)>::empty());
            assert(r@ =~= Map::<Seq<u8>, Seq<u8>>::empty());
        }
        r
    }
}

impl View for MemTable {
    type V = Map<Seq<u8>, Seq<u8>>;

    open spec fn view(&self) -> Map<Seq<u8>, Seq<u8>> {
        map_of(self.entries_view())
    }
}

impl MemTable {
    /// The entry sequence as mathematical pairs.
    pub open spec fn entries_view(self) -> Seq<(Seq<u8>, Seq<u8>)> {
        entries_view(self.entries@)
    }

    /// Entries are sorted strictly ascending by key.
    pub open spec fn wf(self) -> bool {
        sorted_by_key(self.entries_view())
    }

    /// Binary search for `key`: its position, or the position where it
    /// would be inserted.
    fn find(&self, key: &[u8]) -> (r: Result<usize, usize>)
        requires
            sorted_by_key(self.entries_view()),
        ensures
            match r {
                Ok(i) => i < self.entries@.len() && self.entries_view()[i as int].0 == key@,
                Err(i) => {
                    &&& i <= self.entries@.len()
                    &&& forall|j: int|
                        0 <= j < i ==> lex_lt(#[trigger] self.entries_view()[j].0, key@)
                    &&& forall|j: int|
                        i <= j < self.entries@.len() ==> lex_lt(
                            key@,
                            #[trigger] self.entries_view()[j].0,
                        )
                },
            },
    {
        let mut lo: usize = 0;
        let mut hi: usize = self.entries.len();
        while lo < hi
            invariant
                0 <= lo <= hi <= self.entries@.len(),
                sorted_by_key(self.entries_view()),
                forall|j: int| 0 <= j < lo ==> lex_lt(#[trigger] self.entries_view()[j].0, key@),
                forall|j: int|
                    hi <= j < self.entries@.len() ==> lex_lt(
                        key@,
                        #[trigger] self.entries_view()[j].0,
                    ),
            decreases hi - lo,
        {
            let mid = lo + (hi - lo) / 2;
            let probe: &(Vec<u8>, Vec<u8>) = &self.entries[mid];
            match compare_keys(probe.0.as_slice(), key) {
                KeyCmp::Equal => {
                    return Ok(mid);
                },
                KeyCmp::Less => {
                    assert forall|j: int| 0 <= j <= mid implies lex_lt(
                        #[trigger] self.entries_view()[j].0,
                        key@,
                    ) by {
                        if j < mid {
                            crate::order::lemma_lex_transitive(
                                self.entries_view()[j].0,
                                self.entries_view()[mid as int].0,
                                key@,
                            );
                        }
                    }
                    lo = mid + 1;
                },
                KeyCmp::Greater => {
                    assert forall|j: int| mid <= j < self.entries@.len() implies lex_lt(
                        key@,
                        #[trigger] self.entries_view()[j].0,
                    ) by {
                        if j > mid {
                            crate::order::lemma_lex_transitive(
                                key@,
                                self.entries_view()[mid as int].0,
                                self.entries_view()[j].0,
                            );
                        }
                    }
                    hi = mid;
                },
            }
        }
        Err(lo)
    }

    /// Insert or replace: afterwards the table maps `key` to `value`.
    pub fn put(&mut self, key: &[u8], value: Vec<u8>)
        requires
            old(self).wf(),
        ensures
            final(self).wf(),
            final(self)@ == old(self)@.insert(key@, value@),
    {
        let ghost old_view = self.entries_view();
        match self.find(key) {
            Ok(index) => {
                self.entries.remove(index);
                self.entries.insert(index, (slice_to_vec(key), value));
                proof {
                    assert(self.entries_view() =~= old_view.update(
                        index as int,
                        (old_view[index as int].0, value@),
                    ));
                    lemma_map_of_update(old_view, self.entries_view(), index as int, value@);
                }
            },
            Err(index) => {
                self.entries.insert(index, (slice_to_vec(key), value));
                proof {
                    assert(self.entries_view() =~= old_view.insert(index as int, (key@, value@)));
                    lemma_map_of_insert_at(
                        old_view,
                        self.entries_view(),
                        index as int,
                        key@,
                        value@,
                    );
                }
            },
        }
    }

    /// Remove `key` if present; reports whether an entry was removed.
    pub fn delete(&mut self, key: &[u8]) -> (r: bool)
        requires
            old(self).wf(),
        ensures
            final(self).wf(),
            final(self)@ == old(self)@.remove(key@),
            r == old(self)@.contains_key(key@),
    {
        let ghost old_view = self.entries_view();
        proof {
            lemma_map_of_key(old_view, key@);
        }
        match self.find(key) {
            Ok(index) => {
                self.entries.remove(index);
                proof {
                    assert(self.entries_view() =~= old_view.remove(index as int));
                    lemma_map_of_remove_at(old_view, self.entries_view(), index as int);
                }
                true
            },
            Err(index) => {
                proof {
                    assert forall|j: int| 0 <= j < old_view.len() implies old_view[j].0
                        != key@ by {
                        lemma_lex_trichotomy(old_view[j].0, key@);
                    }
                    assert(self@ =~= self@.remove(key@));
                }
                false
            },
        }
    }

    /// Look up `key`.
    pub fn get(&self, key: &[u8]) -> (r: Option<&[u8]>)
        requires
            self.wf(),
        ensures
            match r {
                Some(v) => self@.contains_key(key@) && v@ == self@[key@],
                None => !self@.contains_key(key@),
            },
    {
        proof {
            lemma_map_of_key(self.entries_view(), key@);
            lemma_sorted_implies_unique(self.entries_view());
        }
        match self.find(key) {
            Ok(index) => {
                proof {
                    lemma_map_of_index(self.entries_view(), index as int);
                }
                Some(self.entries[index].1.as_slice())
            },
            Err(_) => {
                proof {
                    assert forall|j: int| 0 <= j < self.entries_view().len() implies
                        self.entries_view()[j].0 != key@ by {
                        lemma_lex_trichotomy(self.entries_view()[j].0, key@);
                    }
                }
                None
            },
        }
    }

    /// All entries with `key_start <= key < key_end`, in ascending key
    /// order, ready to be stepped through.
    pub fn iter_range(&self, key_start: &[u8], key_end: &[u8]) -> (it: MemTableRangeIterator)
        requires
            self.wf(),
        ensures
            it.wf(),
            it.pos == 0,
            it.entries_view() == range_of(self.entries_view(), key_start@, key_end@),
    {
        let mut out: Vec<(Vec<u8>, Vec<u8>)> = Vec::new();
        let n = self.entries.len();
        let mut j: usize = 0;
        while j < n
            invariant
                0 <= j <= n,
                n == self.entries@.len(),
                self.wf(),
                entries_view(out@) == range_of(
                    self.entries_view().take(j as int),
                    key_start@,
                    key_end@,
                ),
            decreases n - j,
        {
            let ghost prev = entries_view(out@);
            let ghost prefix = self.entries_view().take(j as int);
            let e: &(Vec<u8>, Vec<u8>) = &self.entries[j];
            let keep = match compare_keys(e.0.as_slice(), key_start) {
                KeyCmp::Less => false,
                _ => match compare_keys(e.0.as_slice(), key_end) {
                    KeyCmp::Less => true,
                    _ => false,
                },
            };
            proof {
                lemma_lex_trichotomy(e.0@, key_start@);
                lemma_lex_trichotomy(e.0@, key_end@);
                assert(keep == in_range(key_start@, key_end@, self.entries_view()[j as int].0));
            }
            if keep {
                out.push((slice_to_vec(e.0.as_slice()), slice_to_vec(e.1.as_slice())));
            }
            proof {
                reveal(Seq::<_>::filter);
                let next = self.entries_view().take(j + 1);
                assert(next.drop_last() =~= prefix);
                assert(next.last() == self.entries_view()[j as int]);
                if keep {
                    assert(entries_view(out@) =~= prev.push(self.entries_view()[j as int]));
                    assert(range_of(next, key_start@, key_end@) == range_of(
                        prefix,
                        key_start@,
                        key_end@,
                    ).push(next.last()));
                } else {
                    assert(entries_view(out@) =~= prev);
                    assert(range_of(next, key_start@, key_end@) == range_of(
                        prefix,
                        key_start@,
                        key_end@,
                    ));
                }
            }
            j = j + 1;
        }
        proof {
            assert(self.entries_view().take(n as int) =~= self.entries_view());
        }
        proof {
            reveal(Seq::<_>::filter);
            if n == 0 {
                assert(entries_view(out@) =~= range_of(self.entries_view(), key_start@, key_end@));
            }
        }
        MemTableRangeIterator { entries: out, pos: 0 }
    }
}

/// Forward iterator over the entries a range query selected.
pub struct MemTableRangeIterator {
    pub entries: Vec<(Vec<u8>, Vec<u8>)>,
    pub pos: usize,
}

impl MemTableRangeIterator {
    /// The selected entries as mathematical pairs.
    pub open spec fn entries_view(self) -> Seq<(Seq<u8>, Seq<u8>)> {
        entries_view(self.entries@)
    }

    /// The entries not yet yielded.
    pub open spec fn remaining(self) -> Seq<(Seq<u8>, Seq<u8>)> {
        self.entries_view().skip(self.pos as int)
    }

    pub open spec fn wf(self) -> bool {
        self.pos <= self.entries@.len()
    }

    /// Yield the next entry, ascending by key.
    pub fn next(&mut self) -> (r: Option<(Vec<u8>, Vec<u8>)>)
        requires
            old(self).wf(),
        ensures
            final(self).wf(),
            final(self).entries_view() == old(self).entries_view(),
            match r {
                Some(e) => old(self).remaining().len() > 0 && (e.0@, e.1@) == old(
                    self,
                ).remaining()[0] && final(self).pos == old(self).pos + 1,
                None => old(self).remaining().len() == 0 && final(self).pos == old(self).pos,
            },
    {
        if self.pos < self.entries.len() {
            let e: &(Vec<u8>, Vec<u8>) = &self.entries[self.pos];
            let result = (slice_to_vec(e.0.as_slice()), slice_to_vec(e.1.as_slice()));
            self.pos = self.pos + 1;
            Some(result)
        } else {
            None
        }
    }
}

} // verus!
