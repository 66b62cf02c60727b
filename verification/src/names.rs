//! SSTable file names: `<level>-<id>.sst`, both components unsigned
//! decimal numbers. Parsing and formatting, and their round trip.

use vstd::prelude::*;
use vstd::string::is_ascii_spec_bytes;

verus! {

pub const DASH: u8 = 45;

pub const DOT: u8 = 46;

pub const DIGIT_ZERO: u8 = 48;

pub const DIGIT_NINE: u8 = 57;

pub const LETTER_S: u8 = 115;

pub const LETTER_T: u8 = 116;

/// The bytes of the `.sst` suffix.
pub open spec fn suffix_sst() -> Seq<u8> {
    seq![DOT, LETTER_S, LETTER_S, LETTER_T]
}

/// Index of the first `b` at or after `from`, or -1.
pub open spec fn spec_find(s: Seq<u8>, b: u8, from: int) -> int
    decreases s.len() - from,
    when 0 <= from <= s.len()
{
    if from >= s.len() {
        -1
    } else if s[from] == b {
        from
    } else {
        spec_find(s, b, from + 1)
    }
}

/// Every byte is a decimal digit.
pub open spec fn all_digits(s: Seq<u8>) -> bool {
    forall|i: int| 0 <= i < s.len() ==> DIGIT_ZERO <= #[trigger] s[i] <= DIGIT_NINE
}

/// The number a digit string denotes.
pub open spec fn digits_value(s: Seq<u8>) -> int
    decreases s.len(),
{
    if s.len() == 0 {
        0
    } else {
        digits_value(s.drop_last()) * 10 + (s.last() - DIGIT_ZERO)
    }
}

/// Parse an unsigned decimal number that fits 32 bits: at least one
/// digit, digits only, value below 2^32.
pub open spec fn spec_parse_u32(s: Seq<u8>) -> Result<u32, ()> {
    if s.len() > 0 && all_digits(s) && digits_value(s) < 0x100000000 {
        Ok(digits_value(s) as u32)
    } else {
        Err(())
    }
}

/// Parse a table name: the part before the first dash as the level,
/// the part between the dash and the first dot after it as the id, and
/// the rest must be exactly `.sst`.
pub open spec fn spec_parse_name(s: Seq<u8>) -> Result<(u32, u32), ()> {
    let dash = spec_find(s, DASH, 0);
    if dash < 0 {
        Err(())
    } else {
        let dot = spec_find(s, DOT, dash + 1);
        if dot < 0 {
            Err(())
        } else {
            match (spec_parse_u32(s.subrange(0, dash)), spec_parse_u32(
                s.subrange(dash + 1, dot),
            )) {
                (Ok(level), Ok(id)) => {
                    if s.subrange(dot, s.len() as int) == suffix_sst() {
                        Ok((level, id))
                    } else {
                        Err(())
                    }
                },
                _ => Err(()),
            }
        }
    }
}

/// The canonical decimal digits of `n`, no leading zeros.
pub open spec fn spec_digits(n: int) -> Seq<u8>
    decreases n,
    when n >= 0
{
    if n < 10 {
        seq![(DIGIT_ZERO + n) as u8]
    } else {
        spec_digits(n / 10).push((DIGIT_ZERO + n % 10) as u8)
    }
}

/// The canonical name of table `(level, id)`.
pub open spec fn spec_format_name(level: u32, id: u32) -> Seq<u8> {
    spec_digits(level as int) + seq![DASH] + spec_digits(id as int) + suffix_sst()
}

/// Find the first `b` at or after `from`.
fn find_byte(s: &[u8], b: u8, from: usize) -> (r: Option<usize>)
    requires
        from <= s@.len(),
    ensures
        match r {
            Some(i) => from <= i < s@.len() && spec_find(s@, b, from as int) == i && s@[i as int]
                == b,
            None => spec_find(s@, b, from as int) == -1,
        },
{
    let n = s.len();
    let mut i = from;
    while i < n
        invariant
            from <= i <= n,
            n == s@.len(),
            spec_find(s@, b, from as int) == spec_find(s@, b, i as int),
        decreases n - i,
    {
        if s[i] == b {
            return Some(i);
        }
        i = i + 1;
    }
    None
}

/// Digit strings denote nonnegative numbers, and a prefix denotes no
/// more than the whole.
proof fn lemma_digits_monotone(s: Seq<u8>, i: int)
    requires
        all_digits(s),
        0 <= i <= s.len(),
    ensures
        0 <= digits_value(s.take(i)),
        digits_value(s.take(i)) <= digits_value(s),
    decreases s.len() - i,
{
    if i == s.len() {
        assert(s.take(i) =~= s);
        lemma_digits_nonneg(s);
    } else {
        lemma_digits_monotone(s, i + 1);
        let t = s.take(i + 1);
        assert(t.drop_last() =~= s.take(i));
        assert(DIGIT_ZERO <= t.last() <= DIGIT_NINE);
        lemma_digits_nonneg(s.take(i));
    }
}

proof fn lemma_digits_nonneg(s: Seq<u8>)
    requires
        all_digits(s),
    ensures
        digits_value(s) >= 0,
    decreases s.len(),
{
    if s.len() > 0 {
        assert(all_digits(s.drop_last()));
        lemma_digits_nonneg(s.drop_last());
        assert(DIGIT_ZERO <= s.last() <= DIGIT_NINE);
    }
}

/// Parse an unsigned 32-bit decimal number.
fn parse_u32_bytes(s: &[u8]) -> (r: Result<u32, ()>)
    ensures
        r == spec_parse_u32(s@),
{
    let n = s.len();
    if n == 0 {
        return Err(());
    }
    let mut acc: u32 = 0;
    let mut i: usize = 0;
    while i < n
        invariant
            0 <= i <= n,
            n == s@.len(),
            all_digits(s@.take(i as int)),
            acc == digits_value(s@.take(i as int)),
        decreases n - i,
    {
        let c = s[i];
        if c < DIGIT_ZERO || c > DIGIT_NINE {
            proof {
                assert(!all_digits(s@));
            }
            return Err(());
        }
        let d = (c - DIGIT_ZERO) as u32;
        proof {
            assert(s@.take(i + 1).drop_last() =~= s@.take(i as int));
            assert(s@.take(i + 1).last() == s@[i as int]);
        }
        if acc > (u32::MAX - d) / 10 {
            proof {
                assert((u32::MAX - d) / 10 * 10 + 9 >= u32::MAX - d);
                assert(acc * 10 + d > u32::MAX);
                if all_digits(s@) && digits_value(s@) < 0x100000000 {
                    lemma_digits_monotone(s@, i + 1);
                    assert(digits_value(s@.take(i + 1)) == acc * 10 + d);
                }
            }
            return Err(());
        }
        proof {
            assert((u32::MAX - d) / 10 * 10 <= u32::MAX - d);
        }
        acc = acc * 10 + d;
        i = i + 1;
    }
    proof {
        assert(s@.take(n as int) =~= s@);
    }
    Ok(acc)
}

/// Parse a table name given as raw bytes.
pub fn parse_name_bytes(s: &[u8]) -> (r: Result<(u32, u32), ()>)
    ensures
        r == spec_parse_name(s@),
{
    let n = s.len();
    let dash = match find_byte(s, DASH, 0) {
        Some(d) => d,
        None => {
            return Err(());
        },
    };
    let dot = match find_byte(s, DOT, dash + 1) {
        Some(d) => d,
        None => {
            return Err(());
        },
    };
    let level = match parse_u32_bytes(vstd::slice::slice_subrange(s, 0, dash)) {
        Ok(v) => v,
        Err(()) => {
            return Err(());
        },
    };
    let id = match parse_u32_bytes(vstd::slice::slice_subrange(s, dash + 1, dot)) {
        Ok(v) => v,
        Err(()) => {
            return Err(());
        },
    };
    if n - dot != 4 {
        proof {
            assert(s@.subrange(dot as int, n as int).len() != suffix_sst().len());
        }
        return Err(());
    }
    if s[dot + 1] != LETTER_S || s[dot + 2] != LETTER_S || s[dot + 3] != LETTER_T {
        proof {
            assert(s@.subrange(dot as int, n as int) != suffix_sst());
        }
        return Err(());
    }
    proof {
        assert(s@.subrange(dot as int, n as int) =~= suffix_sst());
    }
    Ok((level, id))
}

/// Parse a table name. A name that is not ASCII never matches the
/// grammar.
pub fn parse_sstable_name(name: &str) -> (r: Result<(u32, u32), ()>)
    ensures
        vstd::string::is_ascii(name) ==> r == spec_parse_name(
            name@.map(|i: int, c: char| c as u8),
        ),
        !vstd::string::is_ascii(name) ==> r is Err,
{
    if !name.is_ascii() {
        return Err(());
    }
    let bytes: &[u8] = name.as_bytes();
    proof {
        is_ascii_spec_bytes(name);
        assert(bytes@ =~= name@.map(|i: int, c: char| c as u8));
    }
    parse_name_bytes(bytes)
}

/// Append the canonical decimal digits of `n`.
fn push_digits(out: &mut Vec<u8>, n: u32)
    ensures
        final(out)@ == old(out)@ + spec_digits(n as int),
    decreases n,
{
    if n < 10 {
        out.push(DIGIT_ZERO + (n as u8));
        proof {
            assert(out@ =~= old(out)@ + spec_digits(n as int));
        }
    } else {
        push_digits(out, n / 10);
        out.push(DIGIT_ZERO + ((n % 10) as u8));
        proof {
            assert(out@ =~= old(out)@ + spec_digits(n as int));
        }
    }
}

/// The canonical name of table `(level, id)` as bytes.
pub fn format_sstable_name(level: u32, id: u32) -> (r: Vec<u8>)
    ensures
        r@ == spec_format_name(level, id),
{
    let mut out: Vec<u8> = Vec::new();
    push_digits(&mut out, level);
    out.push(DASH);
    push_digits(&mut out, id);
    out.push(DOT);
    out.push(LETTER_S);
    out.push(LETTER_S);
    out.push(LETTER_T);
    proof {
        assert(out@ =~= spec_format_name(level, id));
    }
    out
}

/// Digits are digits: every byte of the canonical form is a decimal
/// digit, and its value is the number it came from.
proof fn lemma_digits_of(n: int)
    requires
        n >= 0,
    ensures
        spec_digits(n).len() > 0,
        all_digits(spec_digits(n)),
        digits_value(spec_digits(n)) == n,
    decreases n,
{
    vstd::arithmetic::div_mod::lemma_fundamental_div_mod(n, 10);
    if n < 10 {
        let d = spec_digits(n);
        assert(d.drop_last() =~= Seq::<u8>::empty());
        assert(digits_value(d.drop_last()) == 0);
        assert(d.last() == (DIGIT_ZERO + n) as u8);
        assert((DIGIT_ZERO + n) as u8 == DIGIT_ZERO + n);
        assert(digits_value(d) == digits_value(d.drop_last()) * 10 + (d.last() - DIGIT_ZERO));
        assert(digits_value(d) == n);
    } else {
        lemma_digits_of(n / 10);
        let d = spec_digits(n);
        assert(d.drop_last() =~= spec_digits(n / 10));
        assert(digits_value(d.drop_last()) == n / 10);
        assert(d.last() == (DIGIT_ZERO + n % 10) as u8);
        assert(digits_value(d) == (n / 10) * 10 + n % 10);
        assert forall|i: int| 0 <= i < d.len() implies DIGIT_ZERO <= #[trigger] d[i]
            <= DIGIT_NINE by {
            if i < d.len() - 1 {
                assert(spec_digits(n / 10)[i] == d[i]);
            }
        }
    }
}

/// Where the first occurrence of a byte is.
proof fn lemma_find_at(s: Seq<u8>, b: u8, from: int, r: int)
    requires
        0 <= from <= r < s.len(),
        forall|j: int| from <= j < r ==> s[j] != b,
        s[r] == b,
    ensures
        spec_find(s, b, from) == r,
    decreases r - from,
{
    if from < r {
        lemma_find_at(s, b, from + 1, r);
    }
}

/// Formatting then parsing a table name gives back the level and id.
pub proof fn lemma_name_round_trip(level: u32, id: u32)
    ensures
        spec_parse_name(spec_format_name(level, id)) == Ok::<(u32, u32), ()>((level, id)),
{
    lemma_digits_of(level as int);
    lemma_digits_of(id as int);
    let dl = spec_digits(level as int);
    let di = spec_digits(id as int);
    let s = spec_format_name(level, id);
    let dash = dl.len() as int;
    let dot = dash + 1 + di.len() as int;
    assert(s.len() == dl.len() + 1 + di.len() + 4);
    assert forall|j: int| 0 <= j < dash implies s[j] != DASH by {
        assert(s[j] == dl[j]);
    }
    assert(s[dash] == DASH);
    lemma_find_at(s, DASH, 0, dash);
    assert forall|j: int| dash + 1 <= j < dot implies s[j] != DOT by {
        assert(s[j] == di[j - dash - 1]);
    }
    assert(s[dot] == DOT);
    lemma_find_at(s, DOT, dash + 1, dot);
    assert(s.subrange(0, dash) =~= dl);
    assert(s.subrange(dash + 1, dot) =~= di);
    assert(s.subrange(dot, s.len() as int) =~= suffix_sst());
    assert(spec_parse_u32(dl) == Ok::<u32, ()>(level));
    assert(spec_parse_u32(di) == Ok::<u32, ()>(id));
}


/// Powers of ten.
pub open spec fn pow10(k: nat) -> int
    decreases k,
{
    if k == 0 {
        1
    } else {
        10 * pow10((k - 1) as nat)
    }
}

/// A number below the `k`-th power of ten has at most `k` digits.
proof fn lemma_digits_len(n: int, k: nat)
    requires
        0 <= n,
        1 <= k,
        n < pow10(k),
    ensures
        spec_digits(n).len() <= k,
    decreases k,
{
    if n >= 10 {
        vstd::arithmetic::div_mod::lemma_fundamental_div_mod(n, 10);
        assert(k >= 2) by {
            if k == 1 {
                assert(pow10(1) == 10);
            }
        }
        assert(10 * (n / 10) <= n);
        assert(n / 10 < pow10((k - 1) as nat));
        lemma_digits_len(n / 10, (k - 1) as nat);
    }
}

/// A formatted table name is ASCII and of modest length.
pub proof fn lemma_format_name_ok(level: u32, id: u32)
    ensures
        crate::wal::ascii_name(spec_format_name(level, id)),
        7 <= spec_format_name(level, id).len() < 0x100000000,
{
    lemma_digits_of(level as int);
    lemma_digits_of(id as int);
    reveal_with_fuel(pow10, 11);
    assert(pow10(10) == 10000000000);
    lemma_digits_len(level as int, 10);
    lemma_digits_len(id as int, 10);
    let s = spec_format_name(level, id);
    let dl = spec_digits(level as int);
    let di = spec_digits(id as int);
    assert forall|i: int| 0 <= i < s.len() implies s[i] < 128 by {
        if i < dl.len() {
            assert(s[i] == dl[i]);
            assert(DIGIT_ZERO <= dl[i] <= DIGIT_NINE);
        } else if i == dl.len() {
            assert(s[i] == DASH);
        } else if i < dl.len() + 1 + di.len() {
            assert(s[i] == di[i - dl.len() - 1]);
            assert(DIGIT_ZERO <= di[i - dl.len() - 1] <= DIGIT_NINE);
        } else {
            assert(s[i] == suffix_sst()[i - dl.len() - 1 - di.len()]);
        }
    }
}


/// The name ends in `.sst`.
pub open spec fn ends_sst(n: Seq<u8>) -> bool {
    n.len() >= 4 && n.subrange(n.len() - 4, n.len() as int) == suffix_sst()
}

/// Whether a name ends in `.sst`.
pub fn is_sst_name(n: &[u8]) -> (r: bool)
    ensures
        r == ends_sst(n@),
{
    let len = n.len();
    if len < 4 {
        return false;
    }
    let r = n[len - 4] == DOT && n[len - 3] == LETTER_S && n[len - 2] == LETTER_S && n[len - 1]
        == LETTER_T;
    proof {
        if r {
            assert(n@.subrange(n@.len() - 4, n@.len() as int) =~= suffix_sst());
        } else {
            assert(n@.subrange(n@.len() - 4, n@.len() as int) != suffix_sst()) by {
                if n@.subrange(n@.len() - 4, n@.len() as int) == suffix_sst() {
                    assert(n@[n@.len() - 4] == suffix_sst()[0]);
                    assert(n@[n@.len() - 3] == suffix_sst()[1]);
                    assert(n@[n@.len() - 2] == suffix_sst()[2]);
                    assert(n@[n@.len() - 1] == suffix_sst()[3]);
                }
            }
        }
    }
    r
}

} // verus!
