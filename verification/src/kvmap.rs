//! The mathematical model shared by the memtable and the sorted string
//! tables: a finite sequence of key-value entries, viewed as a map from
//! byte-string keys to byte-string values.

use vstd::prelude::*;

use crate::order::lex_lt;
use crate::order::lemma_lex_trichotomy;

verus! {

/// Abstract view of a vector of owned entries.
pub open spec fn entries_view(entries: Seq<(Vec<u8>, Vec<u8>)>) -> Seq<(Seq<u8>, Seq<u8>)> {
    entries.map(|i: int, e: (Vec<u8>, Vec<u8>)| (e.0@, e.1@))
}

/// The map an entry sequence denotes; a later entry wins over an
/// earlier one with the same key.
pub open spec fn map_of(entries: Seq<(Seq<u8>, Seq<u8>)>) -> Map<Seq<u8>, Seq<u8>>
    decreases entries.len(),
{
    if entries.len() == 0 {
        Map::empty()
    } else {
        map_of(entries.drop_last()).insert(entries.last().0, entries.last().1)
    }
}

/// No two entries share a key.
pub open spec fn unique_keys(entries: Seq<(Seq<u8>, Seq<u8>)>) -> bool {
    forall|i: int, j: int|
        0 <= i < j < entries.len() ==> entries[i].0 != entries[j].0
}

/// Keys are strictly increasing.
pub open spec fn sorted_by_key(entries: Seq<(Seq<u8>, Seq<u8>)>) -> bool {
    forall|i: int, j: int|
        0 <= i < j < entries.len() ==> lex_lt(entries[i].0, entries[j].0)
}

/// Every key and value fits the 32-bit length prefixes of the on-disk
/// formats.
pub open spec fn bounded_entries(entries: Seq<(Seq<u8>, Seq<u8>)>) -> bool {
    forall|i: int|
        0 <= i < entries.len() ==> (#[trigger] entries[i]).0.len() < 0x100000000 && entries[
        i].1.len() < 0x100000000
}

/// Every key and value of the map fits the 32-bit length prefixes.
pub open spec fn bounded_map(m: Map<Seq<u8>, Seq<u8>>) -> bool {
    forall|k: Seq<u8>|
        #[trigger] m.contains_key(k) ==> k.len() < 0x100000000 && m[k].len() < 0x100000000
}

/// `start <= k < end` under the lexicographic order.
pub open spec fn in_range(start: Seq<u8>, end: Seq<u8>, k: Seq<u8>) -> bool {
    !lex_lt(k, start) && lex_lt(k, end)
}

/// The subsequence of entries whose keys fall in `[start, end)`.
pub open spec fn range_of(entries: Seq<(Seq<u8>, Seq<u8>)>, start: Seq<u8>, end: Seq<u8>) -> Seq<
    (Seq<u8>, Seq<u8>),
> {
    entries.filter(|e: (Seq<u8>, Seq<u8>)| in_range(start, end, e.0))
}

/// Strictly increasing keys are pairwise distinct.
pub proof fn lemma_sorted_implies_unique(entries: Seq<(Seq<u8>, Seq<u8>)>)
    requires
        sorted_by_key(entries),
    ensures
        unique_keys(entries),
{
    assert forall|i: int, j: int| 0 <= i < j < entries.len() implies entries[i].0 != entries[
        j].0 by {
        lemma_lex_trichotomy(entries[i].0, entries[j].0);
    }
}

/// A key is in the map exactly when some entry carries it.
pub proof fn lemma_map_of_key(entries: Seq<(Seq<u8>, Seq<u8>)>, k: Seq<u8>)
    ensures
        map_of(entries).contains_key(k) <==> (exists|i: int|
            0 <= i < entries.len() && entries[i].0 == k),
    decreases entries.len(),
{
    if entries.len() > 0 {
        lemma_map_of_key(entries.drop_last(), k);
        if entries.last().0 == k {
            assert(entries[entries.len() - 1].0 == k);
        } else if map_of(entries).contains_key(k) {
            let i = choose|i: int| 0 <= i < entries.drop_last().len() && entries.drop_last()[i].0
                == k;
            assert(entries[i].0 == k);
        } else if exists|i: int| 0 <= i < entries.len() && entries[i].0 == k {
            let i = choose|i: int| 0 <= i < entries.len() && entries[i].0 == k;
            assert(entries.drop_last()[i].0 == k);
        }
    }
}

/// With distinct keys, the entry holding a key gives its value.
pub proof fn lemma_map_of_index(entries: Seq<(Seq<u8>, Seq<u8>)>, i: int)
    requires
        unique_keys(entries),
        0 <= i < entries.len(),
    ensures
        map_of(entries).contains_key(entries[i].0),
        map_of(entries)[entries[i].0] == entries[i].1,
    decreases entries.len(),
{
    if i < entries.len() - 1 {
        assert(forall|x: int, y: int|
            0 <= x < y < entries.drop_last().len() ==> entries.drop_last()[x].0 != entries.drop_last()[
            y].0);
        lemma_map_of_index(entries.drop_last(), i);
        assert(entries[i].0 != entries.last().0);
    }
}

/// Replacing the value of the entry at `i` inserts into the map.
pub proof fn lemma_map_of_update(
    old_e: Seq<(Seq<u8>, Seq<u8>)>,
    new_e: Seq<(Seq<u8>, Seq<u8>)>,
    i: int,
    v: Seq<u8>,
)
    requires
        sorted_by_key(old_e),
        0 <= i < old_e.len(),
        new_e == old_e.update(i, (old_e[i].0, v)),
    ensures
        sorted_by_key(new_e),
        map_of(new_e) == map_of(old_e).insert(old_e[i].0, v),
{
    lemma_sorted_implies_unique(old_e);
    assert(forall|j: int| 0 <= j < new_e.len() ==> (#[trigger] new_e[j]).0 == old_e[j].0);
    assert(sorted_by_key(new_e));
    lemma_sorted_implies_unique(new_e);
    let k = old_e[i].0;
    let m1 = map_of(new_e);
    let m2 = map_of(old_e).insert(k, v);
    assert forall|kk: Seq<u8>| m1.contains_key(kk) == m2.contains_key(kk) by {
        lemma_map_of_key(new_e, kk);
        lemma_map_of_key(old_e, kk);
        if exists|j: int| 0 <= j < old_e.len() && old_e[j].0 == kk {
            let j = choose|j: int| 0 <= j < old_e.len() && old_e[j].0 == kk;
            assert(new_e[j].0 == kk);
        }
        if exists|j: int| 0 <= j < new_e.len() && new_e[j].0 == kk {
            let j = choose|j: int| 0 <= j < new_e.len() && new_e[j].0 == kk;
            assert(old_e[j].0 == kk);
        }
        assert(new_e[i].0 == k);
    }
    assert forall|kk: Seq<u8>| m1.contains_key(kk) implies m1[kk] == m2[kk] by {
        lemma_map_of_key(new_e, kk);
        let j = choose|j: int| 0 <= j < new_e.len() && new_e[j].0 == kk;
        lemma_map_of_index(new_e, j);
        if kk == k {
            assert(j == i);
        } else {
            assert(j != i);
            lemma_map_of_index(old_e, j);
        }
    }
    assert(m1 =~= m2);
}

/// Inserting an entry at its sorted position inserts into the map.
pub proof fn lemma_map_of_insert_at(
    old_e: Seq<(Seq<u8>, Seq<u8>)>,
    new_e: Seq<(Seq<u8>, Seq<u8>)>,
    i: int,
    k: Seq<u8>,
    v: Seq<u8>,
)
    requires
        sorted_by_key(old_e),
        0 <= i <= old_e.len(),
        forall|j: int| 0 <= j < i ==> lex_lt((#[trigger] old_e[j]).0, k),
        forall|j: int| i <= j < old_e.len() ==> lex_lt(k, (#[trigger] old_e[j]).0),
        new_e == old_e.insert(i, (k, v)),
    ensures
        sorted_by_key(new_e),
        map_of(new_e) == map_of(old_e).insert(k, v),
{
    lemma_sorted_implies_unique(old_e);
    assert(forall|x: int| 0 <= x < i ==> #[trigger] new_e[x] == old_e[x]);
    assert(new_e[i] == (k, v));
    assert(forall|x: int| i < x < new_e.len() ==> #[trigger] new_e[x] == old_e[x - 1]);
    assert forall|x: int, y: int| 0 <= x < y < new_e.len() implies lex_lt(
        new_e[x].0,
        new_e[y].0,
    ) by {
        if x < i && y > i {
            assert(lex_lt(old_e[x].0, old_e[y - 1].0));
        }
    }
    lemma_sorted_implies_unique(new_e);
    let m1 = map_of(new_e);
    let m2 = map_of(old_e).insert(k, v);
    assert forall|j: int| 0 <= j < old_e.len() implies old_e[j].0 != k by {
        lemma_lex_trichotomy(old_e[j].0, k);
    }
    assert forall|kk: Seq<u8>| m1.contains_key(kk) == m2.contains_key(kk) by {
        lemma_map_of_key(new_e, kk);
        lemma_map_of_key(old_e, kk);
        if exists|j: int| 0 <= j < old_e.len() && old_e[j].0 == kk {
            let j = choose|j: int| 0 <= j < old_e.len() && old_e[j].0 == kk;
            if j < i {
                assert(new_e[j].0 == kk);
            } else {
                assert(new_e[j + 1].0 == kk);
            }
        }
        if exists|j: int| 0 <= j < new_e.len() && new_e[j].0 == kk {
            let j = choose|j: int| 0 <= j < new_e.len() && new_e[j].0 == kk;
            if j < i {
                assert(old_e[j].0 == kk);
            } else if j > i {
                assert(old_e[j - 1].0 == kk);
            }
        }
    }
    assert forall|kk: Seq<u8>| m1.contains_key(kk) implies m1[kk] == m2[kk] by {
        lemma_map_of_key(new_e, kk);
        let j = choose|j: int| 0 <= j < new_e.len() && new_e[j].0 == kk;
        lemma_map_of_index(new_e, j);
        if kk == k {
            assert(j == i);
        } else {
            assert(j != i);
            if j < i {
                lemma_map_of_index(old_e, j);
            } else {
                lemma_map_of_index(old_e, j - 1);
            }
        }
    }
    assert(m1 =~= m2);
}

/// Removing the entry at `i` removes its key from the map.
pub proof fn lemma_map_of_remove_at(
    old_e: Seq<(Seq<u8>, Seq<u8>)>,
    new_e: Seq<(Seq<u8>, Seq<u8>)>,
    i: int,
)
    requires
        sorted_by_key(old_e),
        0 <= i < old_e.len(),
        new_e == old_e.remove(i),
    ensures
        sorted_by_key(new_e),
        map_of(new_e) == map_of(old_e).remove(old_e[i].0),
{
    lemma_sorted_implies_unique(old_e);
    let k = old_e[i].0;
    assert(forall|x: int| 0 <= x < i ==> #[trigger] new_e[x] == old_e[x]);
    assert(forall|x: int| i <= x < new_e.len() ==> #[trigger] new_e[x] == old_e[x + 1]);
    assert forall|x: int, y: int| 0 <= x < y < new_e.len() implies lex_lt(
        new_e[x].0,
        new_e[y].0,
    ) by {
        if x < i && y >= i {
            assert(lex_lt(old_e[x].0, old_e[y + 1].0));
        }
    }
    lemma_sorted_implies_unique(new_e);
    let m1 = map_of(new_e);
    let m2 = map_of(old_e).remove(k);
    assert forall|kk: Seq<u8>| m1.contains_key(kk) == m2.contains_key(kk) by {
        lemma_map_of_key(new_e, kk);
        lemma_map_of_key(old_e, kk);
        if exists|j: int| 0 <= j < new_e.len() && new_e[j].0 == kk {
            let j = choose|j: int| 0 <= j < new_e.len() && new_e[j].0 == kk;
            if j < i {
                assert(old_e[j].0 == kk);
            } else {
                assert(old_e[j + 1].0 == kk);
            }
            assert(kk != k);
        }
        if kk != k && (exists|j: int| 0 <= j < old_e.len() && old_e[j].0 == kk) {
            let j = choose|j: int| 0 <= j < old_e.len() && old_e[j].0 == kk;
            assert(j != i);
            if j < i {
                assert(new_e[j].0 == kk);
            } else {
                assert(new_e[j - 1].0 == kk);
            }
        }
    }
    assert forall|kk: Seq<u8>| m1.contains_key(kk) implies m1[kk] == m2[kk] by {
        lemma_map_of_key(new_e, kk);
        let j = choose|j: int| 0 <= j < new_e.len() && new_e[j].0 == kk;
        lemma_map_of_index(new_e, j);
        if j < i {
            lemma_map_of_index(old_e, j);
        } else {
            lemma_map_of_index(old_e, j + 1);
        }
        assert(kk != k);
    }
    assert(m1 =~= m2);
}

/// Every entry the filter keeps comes from the original sequence.
pub proof fn lemma_filter_membership(
    s: Seq<(Seq<u8>, Seq<u8>)>,
    pred: spec_fn((Seq<u8>, Seq<u8>)) -> bool,
)
    ensures
        forall|j: int|
            0 <= j < s.filter(pred).len() ==> s.contains(#[trigger] s.filter(pred)[j]),
    decreases s.len(),
{
    reveal(Seq::<_>::filter);
    if s.len() > 0 {
        let dl = s.drop_last();
        lemma_filter_membership(dl, pred);
        assert forall|j: int| 0 <= j < s.filter(pred).len() implies s.contains(
            s.filter(pred)[j],
        ) by {
            if j < dl.filter(pred).len() {
                assert(dl.contains(dl.filter(pred)[j]));
                let i = choose|i: int| 0 <= i < dl.len() && dl[i] == dl.filter(pred)[j];
                assert(s[i] == dl.filter(pred)[j]);
            } else {
                assert(s.filter(pred)[j] == s.last());
                assert(s[s.len() - 1] == s.last());
            }
        }
    }
}

/// Filtering preserves strictly increasing key order.
pub proof fn lemma_filter_sorted(
    s: Seq<(Seq<u8>, Seq<u8>)>,
    pred: spec_fn((Seq<u8>, Seq<u8>)) -> bool,
)
    requires
        sorted_by_key(s),
    ensures
        sorted_by_key(s.filter(pred)),
    decreases s.len(),
{
    reveal(Seq::<_>::filter);
    if s.len() > 0 {
        let dl = s.drop_last();
        assert(forall|i: int| 0 <= i < dl.len() ==> #[trigger] dl[i] == s[i]);
        assert(sorted_by_key(dl));
        lemma_filter_sorted(dl, pred);
        lemma_filter_membership(dl, pred);
        let f = s.filter(pred);
        let fdl = dl.filter(pred);
        if pred(s.last()) {
            assert(f == fdl.push(s.last()));
            assert forall|x: int, y: int| 0 <= x < y < f.len() implies lex_lt(
                f[x].0,
                f[y].0,
            ) by {
                if y == f.len() - 1 {
                    assert(f[x] == fdl[x]);
                    assert(dl.contains(fdl[x]));
                    let i = choose|i: int| 0 <= i < dl.len() && dl[i] == fdl[x];
                    assert(s[i] == fdl[x]);
                    assert(lex_lt(s[i].0, s[s.len() - 1].0));
                }
            }
        }
    }
}

/// A range query's result is sorted and holds exactly in-range entries
/// drawn from the source.
pub proof fn lemma_range_of_props(entries: Seq<(Seq<u8>, Seq<u8>)>, start: Seq<u8>, end: Seq<u8>)
    requires
        sorted_by_key(entries),
    ensures
        sorted_by_key(range_of(entries, start, end)),
        forall|j: int|
            0 <= j < range_of(entries, start, end).len() ==> in_range(
                start,
                end,
                (#[trigger] range_of(entries, start, end)[j]).0,
            ) && entries.contains(range_of(entries, start, end)[j]),
{
    let pred = |e: (Seq<u8>, Seq<u8>)| in_range(start, end, e.0);
    lemma_filter_sorted(entries, pred);
    lemma_filter_membership(entries, pred);
    assert forall|j: int| 0 <= j < range_of(entries, start, end).len() implies in_range(
        start,
        end,
        (range_of(entries, start, end)[j]).0,
    ) && entries.contains(range_of(entries, start, end)[j]) by {
        entries.lemma_filter_pred(pred, j);
    }
}

/// With distinct keys, a bounded map means bounded entries.
pub proof fn lemma_bounded_map_entries(entries: Seq<(Seq<u8>, Seq<u8>)>)
    requires
        unique_keys(entries),
        bounded_map(map_of(entries)),
    ensures
        bounded_entries(entries),
{
    assert forall|i: int| 0 <= i < entries.len() implies (#[trigger] entries[i]).0.len()
        < 0x100000000 && entries[i].1.len() < 0x100000000 by {
        lemma_map_of_index(entries, i);
    }
}

} // verus!
