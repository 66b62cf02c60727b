//! Lexicographic order on byte strings: keys are compared byte by byte
//! by unsigned value, a proper prefix ordering before its extensions.

use vstd::prelude::*;

verus! {

/// Strict lexicographic order on byte sequences.
pub open spec fn lex_lt(a: Seq<u8>, b: Seq<u8>) -> bool
    decreases a.len(),
{
    if a.len() == 0 {
        b.len() > 0
    } else if b.len() == 0 {
        false
    } else if a[0] < b[0] {
        true
    } else if a[0] > b[0] {
        false
    } else {
        lex_lt(a.skip(1), b.skip(1))
    }
}

/// Result of a three-way key comparison.
#[derive(Clone, Copy, PartialEq, Eq, Structural, Debug)]
pub enum KeyCmp {
    Less,
    Equal,
    Greater,
}

/// The order decided at the first position where the sequences differ:
/// while the first `i` bytes agree, the comparison of the remainders
/// decides the whole comparison.
pub proof fn lemma_lex_common_prefix(a: Seq<u8>, b: Seq<u8>, i: int)
    requires
        0 <= i <= a.len(),
        i <= b.len(),
        a.subrange(0, i) == b.subrange(0, i),
    ensures
        (i < a.len() && i < b.len() && a[i] < b[i]) ==> lex_lt(a, b),
        (i < a.len() && i < b.len() && a[i] > b[i]) ==> lex_lt(b, a),
        (i == a.len() && i < b.len()) ==> lex_lt(a, b),
        (i == a.len() && i == b.len()) ==> a == b,
    decreases i,
{
    if i == 0 {
        if a.len() == 0 && b.len() == 0 {
            assert(a =~= b);
        }
    } else {
        assert(a.subrange(0, i)[0] == a[0]);
        assert(b.subrange(0, i)[0] == b[0]);
        let a1 = a.skip(1);
        let b1 = b.skip(1);
        assert(a1.subrange(0, i - 1) =~= a.subrange(0, i).skip(1));
        assert(b1.subrange(0, i - 1) =~= b.subrange(0, i).skip(1));
        lemma_lex_common_prefix(a1, b1, i - 1);
        if i < a.len() && i < b.len() && a[i] < b[i] {
            assert(a1[i - 1] == a[i]);
            assert(b1[i - 1] == b[i]);
            assert(lex_lt(a1, b1));
        }
        if i < a.len() && i < b.len() && a[i] > b[i] {
            assert(lex_lt(b1, a1));
        }
        if i == a.len() && i < b.len() {
            assert(lex_lt(a1, b1));
        }
        if i == a.len() && i == b.len() {
            assert(a1 == b1);
            assert forall|j: int| 0 <= j < a.len() implies a[j] == b[j] by {
                if j == 0 {
                    assert(a.subrange(0, i)[0] == b.subrange(0, i)[0]);
                } else {
                    assert(a[j] == a1[j - 1]);
                    assert(b[j] == b1[j - 1]);
                }
            }
            assert(a =~= b);
        }
    }
}

/// Exactly one of `a < b`, `a == b`, `b < a` holds.
pub proof fn lemma_lex_trichotomy(a: Seq<u8>, b: Seq<u8>)
    ensures
        lex_lt(a, b) || lex_lt(b, a) || a == b,
        lex_lt(a, b) ==> !lex_lt(b, a) && a != b,
        lex_lt(b, a) ==> !lex_lt(a, b) && a != b,
    decreases a.len(),
{
    if a.len() == 0 {
        if b.len() == 0 {
            assert(a =~= b);
        }
    } else if b.len() == 0 {
    } else if a[0] == b[0] {
        lemma_lex_trichotomy(a.skip(1), b.skip(1));
        if a.skip(1) == b.skip(1) {
            assert forall|j: int| 0 <= j < a.len() implies a[j] == b[j] by {
                if j > 0 {
                    assert(a[j] == a.skip(1)[j - 1]);
                    assert(b[j] == b.skip(1)[j - 1]);
                }
            }
            assert(a =~= b);
        }
        if a == b {
            assert(a.skip(1) =~= b.skip(1));
        }
    }
}

/// Lexicographic order is transitive.
pub proof fn lemma_lex_transitive(a: Seq<u8>, b: Seq<u8>, c: Seq<u8>)
    requires
        lex_lt(a, b),
        lex_lt(b, c),
    ensures
        lex_lt(a, c),
    decreases a.len(),
{
    if a.len() == 0 {
    } else if a[0] < b[0] {
        if b[0] <= c[0] {
        }
    } else {
        if b[0] == c[0] {
            lemma_lex_transitive(a.skip(1), b.skip(1), c.skip(1));
        }
    }
}

/// Three-way comparison of two byte strings under the lexicographic order.
pub fn compare_keys(a: &[u8], b: &[u8]) -> (c: KeyCmp)
    ensures
        c is Less <==> lex_lt(a@, b@),
        c is Equal <==> a@ == b@,
        c is Greater <==> lex_lt(b@, a@),
{
    let a_len: usize = a.len();
    let b_len: usize = b.len();
    let mut i: usize = 0;
    loop
        invariant
            0 <= i <= a_len,
            i <= b_len,
            a_len == a@.len(),
            b_len == b@.len(),
            a@.subrange(0, i as int) == b@.subrange(0, i as int),
        decreases a_len - i,
    {
        proof {
            lemma_lex_common_prefix(a@, b@, i as int);
            lemma_lex_trichotomy(a@, b@);
        }
        if i == a_len {
            if i == b_len {
                return KeyCmp::Equal;
            } else {
                return KeyCmp::Less;
            }
        }
        if i == b_len {
            proof {
                lemma_lex_common_prefix(b@, a@, i as int);
            }
            return KeyCmp::Greater;
        }
        let x = a[i];
        let y = b[i];
        if x < y {
            return KeyCmp::Less;
        }
        if x > y {
            return KeyCmp::Greater;
        }
        proof {
            assert(a@.subrange(0, i + 1) =~= b@.subrange(0, i + 1));
        }
        i = i + 1;
    }
}

} // verus!
