//! Big-endian integers in bytes.

use vstd::prelude::*;

verus! {

/// The four bytes of `v`, most significant first.
pub open spec fn u32_bytes(v: u32) -> Seq<u8> {
    seq![((v >> 24u32) & 0xffu32) as u8, ((v >> 16u32) & 0xffu32) as u8, ((v >> 8u32) & 0xffu32) as u8, (v & 0xffu32) as u8]
}

/// The value of four bytes, most significant first.
pub open spec fn u32_of(s: Seq<u8>) -> u32 {
    ((s[0] as u32) << 24u32) | ((s[1] as u32) << 16u32) | ((s[2] as u32) << 8u32) | (s[3] as u32)
}

/// The eight bytes of `v`, most significant first.
pub open spec fn u64_bytes(v: u64) -> Seq<u8> {
    u32_bytes((v >> 32u64) as u32) + u32_bytes((v & 0xffff_ffffu64) as u32)
}

/// The value of eight bytes, most significant first.
pub open spec fn u64_of(s: Seq<u8>) -> u64 {
    ((u32_of(s.take(4)) as u64) << 32u64) | (u32_of(s.skip(4)) as u64)
}

pub proof fn lemma_u32_round_trip(v: u32)
    ensures
        u32_of(u32_bytes(v)) == v,
        u32_bytes(v).len() == 4,
{
    let b0 = ((v >> 24u32) & 0xffu32) as u8;
    let b1 = ((v >> 16u32) & 0xffu32) as u8;
    let b2 = ((v >> 8u32) & 0xffu32) as u8;
    let b3 = (v & 0xffu32) as u8;
    assert(((b0 as u32) << 24u32) | ((b1 as u32) << 16u32) | ((b2 as u32) << 8u32) | (b3 as u32)
        == v) by (bit_vector)
        requires
            b0 == ((v >> 24u32) & 0xffu32) as u8,
            b1 == ((v >> 16u32) & 0xffu32) as u8,
            b2 == ((v >> 8u32) & 0xffu32) as u8,
            b3 == (v & 0xffu32) as u8,
    ;
}

pub proof fn lemma_u32_bytes_of(s: Seq<u8>)
    requires
        s.len() == 4,
    ensures
        u32_bytes(u32_of(s)) == s,
{
    let b0 = s[0];
    let b1 = s[1];
    let b2 = s[2];
    let b3 = s[3];
    let v = u32_of(s);
    assert(((v >> 24u32) & 0xffu32) as u8 == b0 && ((v >> 16u32) & 0xffu32) as u8 == b1 && ((v
        >> 8u32) & 0xffu32) as u8 == b2 && (v & 0xffu32) as u8 == b3) by (bit_vector)
        requires
            v == ((b0 as u32) << 24u32) | ((b1 as u32) << 16u32) | ((b2 as u32) << 8u32) | (
            b3 as u32),
    ;
    assert(u32_bytes(v) =~= s);
}

pub proof fn lemma_u64_round_trip(v: u64)
    ensures
        u64_of(u64_bytes(v)) == v,
        u64_bytes(v).len() == 8,
{
    let hi = (v >> 32u64) as u32;
    let lo = (v & 0xffff_ffffu64) as u32;
    lemma_u32_round_trip(hi);
    lemma_u32_round_trip(lo);
    assert(u64_bytes(v).take(4) =~= u32_bytes(hi));
    assert(u64_bytes(v).skip(4) =~= u32_bytes(lo));
    assert(((hi as u64) << 32u64) | (lo as u64) == v) by (bit_vector)
        requires
            hi == (v >> 32u64) as u32,
            lo == (v & 0xffff_ffffu64) as u32,
    ;
}

pub proof fn lemma_u64_bytes_of(s: Seq<u8>)
    requires
        s.len() == 8,
    ensures
        u64_bytes(u64_of(s)) == s,
{
    let hi = u32_of(s.take(4));
    let lo = u32_of(s.skip(4));
    let v = u64_of(s);
    assert((v >> 32u64) as u32 == hi && (v & 0xffff_ffffu64) as u32 == lo) by (bit_vector)
        requires
            v == ((hi as u64) << 32u64) | (lo as u64),
    ;
    lemma_u32_bytes_of(s.take(4));
    lemma_u32_bytes_of(s.skip(4));
    assert(u64_bytes(v) =~= s);
}

/// Appends the four bytes of `v`.
pub fn put_u32(dst: &mut Vec<u8>, v: u32)
    ensures
        final(dst)@ == old(dst)@ + u32_bytes(v),
{
    dst.push(((v >> 24u32) & 0xffu32) as u8);
    dst.push(((v >> 16u32) & 0xffu32) as u8);
    dst.push(((v >> 8u32) & 0xffu32) as u8);
    dst.push((v & 0xffu32) as u8);
    proof {
        assert(final(dst)@ =~= old(dst)@ + u32_bytes(v));
    }
}

/// Appends the eight bytes of `v`.
pub fn put_u64(dst: &mut Vec<u8>, v: u64)
    ensures
        final(dst)@ == old(dst)@ + u64_bytes(v),
{
    put_u32(dst, (v >> 32u64) as u32);
    put_u32(dst, (v & 0xffff_ffffu64) as u32);
    proof {
        assert(final(dst)@ =~= old(dst)@ + u64_bytes(v));
    }
}

/// Reads four bytes at `i`.
pub fn get_u32(src: &[u8], i: usize) -> (r: u32)
    requires
        i + 4 <= src@.len(),
    ensures
        r == u32_of(src@.subrange(i as int, i + 4)),
{
    ((src[i] as u32) << 24u32) | ((src[i + 1] as u32) << 16u32) | ((src[i + 2] as u32) << 8u32) | (
    src[i + 3] as u32)
}

/// Reads eight bytes at `i`.
pub fn get_u64(src: &[u8], i: usize) -> (r: u64)
    requires
        i + 8 <= src@.len(),
    ensures
        r == u64_of(src@.subrange(i as int, i + 8)),
{
    let n = src.len();
    let hi = get_u32(src, i);
    let lo = get_u32(src, i + 4);
    proof {
        assert(src@.subrange(i as int, i + 8).take(4) =~= src@.subrange(i as int, i + 4));
        assert(src@.subrange(i as int, i + 8).skip(4) =~= src@.subrange(i + 4, i + 8));
    }
    ((hi as u64) << 32u64) | (lo as u64)
}

} // verus!
