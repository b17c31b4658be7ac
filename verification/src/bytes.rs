//! Fixed-width big-endian integer encodings used by the wire formats.

use vstd::prelude::*;

verus! {

/// The big-endian bytes of a 64-bit unsigned integer, most significant first.
pub open spec fn spec_u64_to_be_bytes(v: u64) -> Seq<u8> {
    seq![
        (v >> 56) as u8,
        (v >> 48) as u8,
        (v >> 40) as u8,
        (v >> 32) as u8,
        (v >> 24) as u8,
        (v >> 16) as u8,
        (v >> 8) as u8,
        v as u8,
    ]
}

/// The 64-bit unsigned integer denoted by 8 big-endian bytes.
pub open spec fn spec_u64_from_be_bytes(s: Seq<u8>) -> u64
    recommends
        s.len() == 8,
{
    ((s[0] as u64) << 56 | (s[1] as u64) << 48 | (s[2] as u64) << 40 | (s[3] as u64) << 32
        | (s[4] as u64) << 24 | (s[5] as u64) << 16 | (s[6] as u64) << 8 | (s[7] as u64))
}

/// Reading back the big-endian bytes of a 64-bit integer yields the integer.
pub proof fn lemma_u64_be_bytes_roundtrip(v: u64)
    ensures
        spec_u64_from_be_bytes(spec_u64_to_be_bytes(v)) == v,
{
    let s = spec_u64_to_be_bytes(v);
    assert(s[0] == (v >> 56) as u8);
    assert(s[1] == (v >> 48) as u8);
    assert(s[2] == (v >> 40) as u8);
    assert(s[3] == (v >> 32) as u8);
    assert(s[4] == (v >> 24) as u8);
    assert(s[5] == (v >> 16) as u8);
    assert(s[6] == (v >> 8) as u8);
    assert(s[7] == v as u8);
    assert((((v >> 56) as u8) as u64) << 56 | (((v >> 48) as u8) as u64) << 48
        | (((v >> 40) as u8) as u64) << 40 | (((v >> 32) as u8) as u64) << 32
        | (((v >> 24) as u8) as u64) << 24 | (((v >> 16) as u8) as u64) << 16
        | (((v >> 8) as u8) as u64) << 8 | ((v as u8) as u64) == v) by (bit_vector);
}

/// Appends the big-endian bytes of `v` to `out`.
pub fn u64_write_be(out: &mut Vec<u8>, v: u64)
    ensures
        final(out)@ == old(out)@ + spec_u64_to_be_bytes(v),
{
    out.push((v >> 56) as u8);
    out.push((v >> 48) as u8);
    out.push((v >> 40) as u8);
    out.push((v >> 32) as u8);
    out.push((v >> 24) as u8);
    out.push((v >> 16) as u8);
    out.push((v >> 8) as u8);
    out.push(v as u8);
    assert(out@ =~= old(out)@ + spec_u64_to_be_bytes(v));
}

/// Reads the 64-bit big-endian integer at `pos` in `s`.
pub fn u64_read_be(s: &[u8], pos: usize) -> (v: u64)
    requires
        pos + 8 <= s@.len(),
    ensures
        v == spec_u64_from_be_bytes(s@.subrange(pos as int, pos + 8)),
{
    let v: u64 = (s[pos] as u64) << 56 | (s[pos + 1] as u64) << 48 | (s[pos + 2] as u64) << 40
        | (s[pos + 3] as u64) << 32 | (s[pos + 4] as u64) << 24 | (s[pos + 5] as u64) << 16
        | (s[pos + 6] as u64) << 8 | (s[pos + 7] as u64);
    proof {
        let sub = s@.subrange(pos as int, pos + 8);
        assert(sub[0] == s@[pos as int]);
        assert(sub[1] == s@[pos + 1]);
        assert(sub[2] == s@[pos + 2]);
        assert(sub[3] == s@[pos + 3]);
        assert(sub[4] == s@[pos + 4]);
        assert(sub[5] == s@[pos + 5]);
        assert(sub[6] == s@[pos + 6]);
        assert(sub[7] == s@[pos + 7]);
    }
    v
}

/// The big-endian bytes of a 16-bit unsigned integer, most significant first.
pub open spec fn spec_u16_to_be_bytes(v: u16) -> Seq<u8> {
    seq![(v >> 8) as u8, v as u8]
}

/// The 16-bit unsigned integer denoted by 2 big-endian bytes.
pub open spec fn spec_u16_from_be_bytes(s: Seq<u8>) -> u16
    recommends
        s.len() == 2,
{
    ((s[0] as u16) << 8 | (s[1] as u16))
}

/// Reading back the big-endian bytes of a 16-bit integer yields the integer.
pub proof fn lemma_u16_be_bytes_roundtrip(v: u16)
    ensures
        spec_u16_from_be_bytes(spec_u16_to_be_bytes(v)) == v,
{
    let s = spec_u16_to_be_bytes(v);
    assert(s[0] == (v >> 8) as u8);
    assert(s[1] == v as u8);
    assert((((v >> 8) as u8) as u16) << 8 | ((v as u8) as u16) == v) by (bit_vector);
}

/// Appends the big-endian bytes of `v` to `out`.
pub fn u16_write_be(out: &mut Vec<u8>, v: u16)
    ensures
        final(out)@ == old(out)@ + spec_u16_to_be_bytes(v),
{
    out.push((v >> 8) as u8);
    out.push(v as u8);
    assert(out@ =~= old(out)@ + spec_u16_to_be_bytes(v));
}

/// Reads the 16-bit big-endian integer at `pos` in `s`.
pub fn u16_read_be(s: &[u8], pos: usize) -> (v: u16)
    requires
        pos + 2 <= s@.len(),
    ensures
        v == spec_u16_from_be_bytes(s@.subrange(pos as int, pos + 2)),
{
    let v: u16 = (s[pos] as u16) << 8 | (s[pos + 1] as u16);
    proof {
        let sub = s@.subrange(pos as int, pos + 2);
        assert(sub[0] == s@[pos as int]);
        assert(sub[1] == s@[pos + 1]);
    }
    v
}

/// The big-endian bytes of a 32-bit unsigned integer, most significant first.
pub open spec fn spec_u32_to_be_bytes(v: u32) -> Seq<u8> {
    seq![(v >> 24) as u8, (v >> 16) as u8, (v >> 8) as u8, v as u8]
}

/// The 32-bit unsigned integer denoted by 4 big-endian bytes.
pub open spec fn spec_u32_from_be_bytes(s: Seq<u8>) -> u32
    recommends
        s.len() == 4,
{
    ((s[0] as u32) << 24 | (s[1] as u32) << 16 | (s[2] as u32) << 8 | (s[3] as u32))
}

/// Reading back the big-endian bytes of a 32-bit integer yields the integer.
pub proof fn lemma_u32_be_bytes_roundtrip(v: u32)
    ensures
        spec_u32_from_be_bytes(spec_u32_to_be_bytes(v)) == v,
{
    let s = spec_u32_to_be_bytes(v);
    assert(s[0] == (v >> 24) as u8);
    assert(s[1] == (v >> 16) as u8);
    assert(s[2] == (v >> 8) as u8);
    assert(s[3] == v as u8);
    assert((((v >> 24) as u8) as u32) << 24 | (((v >> 16) as u8) as u32) << 16
        | (((v >> 8) as u8) as u32) << 8 | ((v as u8) as u32) == v) by (bit_vector);
}

/// Appends the big-endian bytes of `v` to `out`.
pub fn u32_write_be(out: &mut Vec<u8>, v: u32)
    ensures
        final(out)@ == old(out)@ + spec_u32_to_be_bytes(v),
{
    out.push((v >> 24) as u8);
    out.push((v >> 16) as u8);
    out.push((v >> 8) as u8);
    out.push(v as u8);
    assert(out@ =~= old(out)@ + spec_u32_to_be_bytes(v));
}

/// Reads the 32-bit big-endian integer at `pos` in `s`.
pub fn u32_read_be(s: &[u8], pos: usize) -> (v: u32)
    requires
        pos + 4 <= s@.len(),
    ensures
        v == spec_u32_from_be_bytes(s@.subrange(pos as int, pos + 4)),
{
    let v: u32 = (s[pos] as u32) << 24 | (s[pos + 1] as u32) << 16 | (s[pos + 2] as u32) << 8
        | (s[pos + 3] as u32);
    proof {
        let sub = s@.subrange(pos as int, pos + 4);
        assert(sub[0] == s@[pos as int]);
        assert(sub[1] == s@[pos + 1]);
        assert(sub[2] == s@[pos + 2]);
        assert(sub[3] == s@[pos + 3]);
    }
    v
}

} // verus!
