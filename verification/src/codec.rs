//! Big-endian encodings of the fixed-width integers used by the WAL
//! record framing and the sorted-string-table format.

use vstd::prelude::*;

verus! {

/// The four bytes of `x` in big-endian order.
pub open spec fn spec_be32(x: u32) -> Seq<u8> {
    seq![
        (x / 0x1000000) as u8,
        ((x / 0x10000) % 0x100) as u8,
        ((x / 0x100) % 0x100) as u8,
        (x % 0x100) as u8,
    ]
}

/// The integer read big-endian from four bytes.
pub open spec fn spec_be32_decode(s: Seq<u8>) -> u32 {
    ((s[0] as int) * 0x1000000 + (s[1] as int) * 0x10000 + (s[2] as int) * 0x100 + (
    s[3] as int)) as u32
}

/// The eight bytes of `x` in big-endian order.
pub open spec fn spec_be64(x: u64) -> Seq<u8> {
    seq![
        (x / 0x100000000000000) as u8,
        ((x / 0x1000000000000) % 0x100) as u8,
        ((x / 0x10000000000) % 0x100) as u8,
        ((x / 0x100000000) % 0x100) as u8,
        ((x / 0x1000000) % 0x100) as u8,
        ((x / 0x10000) % 0x100) as u8,
        ((x / 0x100) % 0x100) as u8,
        (x % 0x100) as u8,
    ]
}

/// The integer read big-endian from eight bytes.
pub open spec fn spec_be64_decode(s: Seq<u8>) -> u64 {
    ((s[0] as int) * 0x100000000000000 + (s[1] as int) * 0x1000000000000 + (s[2] as int)
        * 0x10000000000 + (s[3] as int) * 0x100000000 + (s[4] as int) * 0x1000000 + (s[5] as int)
        * 0x10000 + (s[6] as int) * 0x100 + (s[7] as int)) as u64
}

/// Decoding inverts encoding for 32-bit values.
pub proof fn lemma_be32_round_trip(x: u32)
    ensures
        spec_be32(x).len() == 4,
        spec_be32_decode(spec_be32(x)) == x,
{
    assert((x / 0x1000000) as int * 0x1000000 + ((x / 0x10000) % 0x100) as int * 0x10000 + ((x
        / 0x100) % 0x100) as int * 0x100 + (x % 0x100) as int == x as int) by (bit_vector);
}

/// Decoding inverts encoding for 64-bit values.
pub proof fn lemma_be64_round_trip(x: u64)
    ensures
        spec_be64(x).len() == 8,
        spec_be64_decode(spec_be64(x)) == x,
{
    assert((x / 0x100000000000000) as int * 0x100000000000000 + ((x / 0x1000000000000) % 0x100)
        as int * 0x1000000000000 + ((x / 0x10000000000) % 0x100) as int * 0x10000000000 + ((x
        / 0x100000000) % 0x100) as int * 0x100000000 + ((x / 0x1000000) % 0x100) as int * 0x1000000
        + ((x / 0x10000) % 0x100) as int * 0x10000 + ((x / 0x100) % 0x100) as int * 0x100 + (x
        % 0x100) as int == x as int) by (bit_vector);
}

/// Append the big-endian encoding of a 32-bit integer to a buffer.
pub fn push_be32(out: &mut Vec<u8>, x: u32)
    ensures
        final(out)@ == old(out)@ + spec_be32(x),
{
    let b0: u8 = (x >> 24) as u8;
    let b1: u8 = (x >> 16) as u8;
    let b2: u8 = (x >> 8) as u8;
    let b3: u8 = x as u8;
    proof {
        assert((x >> 24) as u8 == (x / 0x1000000) as u8 && (x >> 16) as u8 == ((x / 0x10000)
            % 0x100) as u8 && (x >> 8) as u8 == ((x / 0x100) % 0x100) as u8 && x as u8 == (x
            % 0x100) as u8) by (bit_vector);
    }
    out.push(b0);
    out.push(b1);
    out.push(b2);
    out.push(b3);
    proof {
        assert(out@ =~= old(out)@ + spec_be32(x));
    }
}

/// Append the big-endian encoding of a 64-bit integer to a buffer.
pub fn push_be64(out: &mut Vec<u8>, x: u64)
    ensures
        final(out)@ == old(out)@ + spec_be64(x),
{
    let b0: u8 = (x >> 56) as u8;
    let b1: u8 = (x >> 48) as u8;
    let b2: u8 = (x >> 40) as u8;
    let b3: u8 = (x >> 32) as u8;
    let b4: u8 = (x >> 24) as u8;
    let b5: u8 = (x >> 16) as u8;
    let b6: u8 = (x >> 8) as u8;
    let b7: u8 = x as u8;
    proof {
        assert((x >> 56) as u8 == (x / 0x100000000000000) as u8 && (x >> 48) as u8 == ((x
            / 0x1000000000000) % 0x100) as u8 && (x >> 40) as u8 == ((x / 0x10000000000) % 0x100)
            as u8 && (x >> 32) as u8 == ((x / 0x100000000) % 0x100) as u8 && (x >> 24) as u8 == ((x
            / 0x1000000) % 0x100) as u8 && (x >> 16) as u8 == ((x / 0x10000) % 0x100) as u8 && (x
            >> 8) as u8 == ((x / 0x100) % 0x100) as u8 && x as u8 == (x % 0x100) as u8)
            by (bit_vector);
    }
    out.push(b0);
    out.push(b1);
    out.push(b2);
    out.push(b3);
    out.push(b4);
    out.push(b5);
    out.push(b6);
    out.push(b7);
    proof {
        assert(out@ =~= old(out)@ + spec_be64(x));
    }
}

/// Read a 32-bit integer big-endian from four bytes.
pub fn be32_decode(b: &[u8]) -> (r: u32)
    requires
        b@.len() == 4,
    ensures
        r == spec_be32_decode(b@),
{
    let b0 = b[0];
    let b1 = b[1];
    let b2 = b[2];
    let b3 = b[3];
    let r = ((b0 as u32) << 24) | ((b1 as u32) << 16) | ((b2 as u32) << 8) | (b3 as u32);
    proof {
        assert(((b0 as u32) << 24) | ((b1 as u32) << 16) | ((b2 as u32) << 8) | (b3 as u32) == ((b0
            as int) * 0x1000000 + (b1 as int) * 0x10000 + (b2 as int) * 0x100 + (b3 as int)) as u32)
            by (bit_vector);
    }
    r
}

/// Read a 64-bit integer big-endian from eight bytes.
pub fn be64_decode(b: &[u8]) -> (r: u64)
    requires
        b@.len() == 8,
    ensures
        r == spec_be64_decode(b@),
{
    let b0 = b[0];
    let b1 = b[1];
    let b2 = b[2];
    let b3 = b[3];
    let b4 = b[4];
    let b5 = b[5];
    let b6 = b[6];
    let b7 = b[7];
    let r = ((b0 as u64) << 56) | ((b1 as u64) << 48) | ((b2 as u64) << 40) | ((b3 as u64) << 32)
        | ((b4 as u64) << 24) | ((b5 as u64) << 16) | ((b6 as u64) << 8) | (b7 as u64);
    proof {
        assert(((b0 as u64) << 56) | ((b1 as u64) << 48) | ((b2 as u64) << 40) | ((b3 as u64) << 32)
            | ((b4 as u64) << 24) | ((b5 as u64) << 16) | ((b6 as u64) << 8) | (b7 as u64) == ((b0
            as int) * 0x100000000000000 + (b1 as int) * 0x1000000000000 + (b2 as int)
            * 0x10000000000 + (b3 as int) * 0x100000000 + (b4 as int) * 0x1000000 + (b5 as int)
            * 0x10000 + (b6 as int) * 0x100 + (b7 as int)) as u64) by (bit_vector);
    }
    r
}

} // verus!
