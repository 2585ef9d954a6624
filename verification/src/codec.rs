//! Big-endian integer and length-prefixed byte/string primitives for the
//! meowzip wire format and the database row encoding.

use vstd::prelude::*;
use vstd::utf8::*;

verus! {

// ---------------------------------------------------------------------------
// Specification of the encodings
// ---------------------------------------------------------------------------

/// The eight big-endian bytes of a `u64`.
pub open spec fn be64(x: u64) -> Seq<u8> {
    seq![
        ((x >> 56) & 0xff) as u8,
        ((x >> 48) & 0xff) as u8,
        ((x >> 40) & 0xff) as u8,
        ((x >> 32) & 0xff) as u8,
        ((x >> 24) & 0xff) as u8,
        ((x >> 16) & 0xff) as u8,
        ((x >> 8) & 0xff) as u8,
        (x & 0xff) as u8,
    ]
}

/// The `u64` read back from eight big-endian bytes.
pub open spec fn be64_val(s: Seq<u8>) -> u64
    recommends
        s.len() == 8,
{
    ((s[0] as u64) << 56 | (s[1] as u64) << 48 | (s[2] as u64) << 40 | (s[3] as u64) << 32 | (
    s[4] as u64) << 24 | (s[5] as u64) << 16 | (s[6] as u64) << 8 | (s[7] as u64)) as u64
}

/// The four big-endian bytes of a `u32`.
pub open spec fn be32(x: u32) -> Seq<u8> {
    seq![
        ((x >> 24) & 0xff) as u8,
        ((x >> 16) & 0xff) as u8,
        ((x >> 8) & 0xff) as u8,
        (x & 0xff) as u8,
    ]
}

/// The `u32` read back from four big-endian bytes.
pub open spec fn be32_val(s: Seq<u8>) -> u32
    recommends
        s.len() == 4,
{
    ((s[0] as u32) << 24 | (s[1] as u32) << 16 | (s[2] as u32) << 8 | (s[3] as u32)) as u32
}

/// A byte string prefixed by its 64-bit big-endian length.
pub open spec fn lp_bytes(b: Seq<u8>) -> Seq<u8>
    recommends
        b.len() <= u64::MAX,
{
    be64(b.len() as u64) + b
}

/// A character string as its length-prefixed UTF-8 encoding.
pub open spec fn lp_str(s: Seq<char>) -> Seq<u8> {
    lp_bytes(encode_utf8(s))
}

// ---------------------------------------------------------------------------
// Round-trip lemmas
// ---------------------------------------------------------------------------

pub proof fn lemma_be64_round_trip(x: u64)
    ensures
        be64(x).len() == 8,
        be64_val(be64(x)) == x,
{
    assert(((((x >> 56) & 0xff) as u8) as u64) << 56 | ((((x >> 48) & 0xff) as u8) as u64) << 48
        | ((((x >> 40) & 0xff) as u8) as u64) << 40 | ((((x >> 32) & 0xff) as u8) as u64) << 32
        | ((((x >> 24) & 0xff) as u8) as u64) << 24 | ((((x >> 16) & 0xff) as u8) as u64) << 16
        | ((((x >> 8) & 0xff) as u8) as u64) << 8 | (((x & 0xff) as u8) as u64) == x)
        by (bit_vector);
}

pub proof fn lemma_be32_round_trip(x: u32)
    ensures
        be32(x).len() == 4,
        be32_val(be32(x)) == x,
{
    assert(((((x >> 24) & 0xff) as u8) as u32) << 24 | ((((x >> 16) & 0xff) as u8) as u32) << 16
        | ((((x >> 8) & 0xff) as u8) as u32) << 8 | (((x & 0xff) as u8) as u32) == x)
        by (bit_vector);
}

// ---------------------------------------------------------------------------
// Executable writers
// ---------------------------------------------------------------------------

pub fn push_u64_be(out: &mut Vec<u8>, x: u64)
    ensures
        final(out)@ == old(out)@ + be64(x),
{
    proof {
        assert((x >> 56) & 0xff < 256 && (x >> 48) & 0xff < 256 && (x >> 40) & 0xff < 256 && (x
            >> 32) & 0xff < 256 && (x >> 24) & 0xff < 256 && (x >> 16) & 0xff < 256 && (x >> 8)
            & 0xff < 256 && x & 0xff < 256) by (bit_vector);
    }
    out.push(((x >> 56) & 0xff) as u8);
    out.push(((x >> 48) & 0xff) as u8);
    out.push(((x >> 40) & 0xff) as u8);
    out.push(((x >> 32) & 0xff) as u8);
    out.push(((x >> 24) & 0xff) as u8);
    out.push(((x >> 16) & 0xff) as u8);
    out.push(((x >> 8) & 0xff) as u8);
    out.push((x & 0xff) as u8);
    proof {
        assert(out@ =~= old(out)@ + be64(x));
    }
}

pub fn push_u32_be(out: &mut Vec<u8>, x: u32)
    ensures
        final(out)@ == old(out)@ + be32(x),
{
    proof {
        assert((x >> 24) & 0xff < 256 && (x >> 16) & 0xff < 256 && (x >> 8) & 0xff < 256 && x
            & 0xff < 256) by (bit_vector);
    }
    out.push(((x >> 24) & 0xff) as u8);
    out.push(((x >> 16) & 0xff) as u8);
    out.push(((x >> 8) & 0xff) as u8);
    out.push((x & 0xff) as u8);
    proof {
        assert(out@ =~= old(out)@ + be32(x));
    }
}

pub fn push_lp_bytes(out: &mut Vec<u8>, data: &[u8])
    ensures
        final(out)@ == old(out)@ + lp_bytes(data@),
{
    push_u64_be(out, data.len() as u64);
    out.extend_from_slice(data);
    proof {
        assert(out@ =~= old(out)@ + lp_bytes(data@));
    }
}

pub fn push_lp_str(out: &mut Vec<u8>, s: &str)
    ensures
        final(out)@ == old(out)@ + lp_str(s@),
{
    push_lp_bytes(out, s.as_bytes());
}

// ---------------------------------------------------------------------------
// Executable readers
// ---------------------------------------------------------------------------

/// Reads a big-endian `u64` at `pos`; yields the value and the position
/// after it, or nothing when fewer than eight bytes remain.
pub fn read_u64_be(bytes: &[u8], pos: usize) -> (r: Option<(u64, usize)>)
    ensures
        pos + 8 <= bytes@.len() ==> (r matches Some(v) && v.0 == be64_val(
            bytes@.subrange(pos as int, pos + 8),
        ) && v.1 == pos + 8),
        pos + 8 > bytes@.len() ==> r is None,
{
    if bytes.len() < 8 || pos > bytes.len() - 8 {
        return None;
    }
    let v: u64 = (bytes[pos] as u64) << 56 | (bytes[pos + 1] as u64) << 48 | (bytes[pos + 2]
        as u64) << 40 | (bytes[pos + 3] as u64) << 32 | (bytes[pos + 4] as u64) << 24 | (bytes[pos
        + 5] as u64) << 16 | (bytes[pos + 6] as u64) << 8 | (bytes[pos + 7] as u64);
    Some((v, pos + 8))
}

/// Reads a big-endian `u32` at `pos`.
pub fn read_u32_be(bytes: &[u8], pos: usize) -> (r: Option<(u32, usize)>)
    ensures
        pos + 4 <= bytes@.len() ==> (r matches Some(v) && v.0 == be32_val(
            bytes@.subrange(pos as int, pos + 4),
        ) && v.1 == pos + 4),
        pos + 4 > bytes@.len() ==> r is None,
{
    if bytes.len() < 4 || pos > bytes.len() - 4 {
        return None;
    }
    let v: u32 = (bytes[pos] as u32) << 24 | (bytes[pos + 1] as u32) << 16 | (bytes[pos + 2]
        as u32) << 8 | (bytes[pos + 3] as u32);
    Some((v, pos + 4))
}

} // verus!
