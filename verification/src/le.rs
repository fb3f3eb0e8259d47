//! Little-endian integers as byte sequences.

use vstd::prelude::*;

verus! {

/// The four bytes of `v`, least significant first.
#[verifier::opaque]
pub open spec fn u32_bytes(v: u32) -> Seq<u8> {
    seq![
        (v % 0x100) as u8,
        (v / 0x100 % 0x100) as u8,
        (v / 0x1_0000 % 0x100) as u8,
        (v / 0x100_0000 % 0x100) as u8,
    ]
}

/// The number whose least significant byte is `b[0]`; reads four bytes.
#[verifier::opaque]
pub open spec fn u32_value(b: Seq<u8>) -> u32
    recommends
        b.len() == 4,
{
    (b[0] + b[1] * 0x100 + b[2] * 0x1_0000 + b[3] * 0x100_0000) as u32
}

/// The eight bytes of `v`, least significant first.
#[verifier::opaque]
pub open spec fn u64_bytes(v: u64) -> Seq<u8> {
    u32_bytes((v % 0x1_0000_0000) as u32) + u32_bytes((v / 0x1_0000_0000) as u32)
}

/// The number whose least significant byte is `b[0]`; reads eight bytes.
#[verifier::opaque]
pub open spec fn u64_value(b: Seq<u8>) -> u64
    recommends
        b.len() == 8,
{
    (u32_value(b.subrange(0, 4)) + u32_value(b.subrange(4, 8)) * 0x1_0000_0000) as u64
}

/// Reading back the bytes of a 32-bit number gives the number.
pub proof fn lemma_u32_value_of_bytes(v: u32)
    ensures
        u32_bytes(v).len() == 4,
        u32_value(u32_bytes(v)) == v,
{
    reveal(u32_bytes);
    reveal(u32_value);
}

/// Four bytes are the bytes of the number they spell.
pub proof fn lemma_u32_bytes_of_value(b: Seq<u8>)
    requires
        b.len() == 4,
    ensures
        u32_bytes(u32_value(b)) == b,
{
    reveal(u32_bytes);
    reveal(u32_value);
    let b0 = b[0] as u32;
    let b1 = b[1] as u32;
    let b2 = b[2] as u32;
    let b3 = b[3] as u32;
    let x = u32_value(b);
    assert(b0 < 0x100 && b1 < 0x100 && b2 < 0x100 && b3 < 0x100 ==> {
        let y = (b0 + b1 * 0x100 + b2 * 0x1_0000 + b3 * 0x100_0000) as u32;
        &&& y % 0x100 == b0
        &&& y / 0x100 % 0x100 == b1
        &&& y / 0x1_0000 % 0x100 == b2
        &&& y / 0x100_0000 % 0x100 == b3
    }) by (bit_vector);
    assert(u32_bytes(x) =~= b);
}

/// Reading back the bytes of a 64-bit number gives the number.
pub proof fn lemma_u64_value_of_bytes(v: u64)
    ensures
        u64_bytes(v).len() == 8,
        u64_value(u64_bytes(v)) == v,
{
    reveal(u64_bytes);
    reveal(u64_value);
    let lo = (v % 0x1_0000_0000) as u32;
    let hi = (v / 0x1_0000_0000) as u32;
    lemma_u32_value_of_bytes(lo);
    lemma_u32_value_of_bytes(hi);
    assert(u64_bytes(v).subrange(0, 4) =~= u32_bytes(lo));
    assert(u64_bytes(v).subrange(4, 8) =~= u32_bytes(hi));
}

/// Eight bytes are the bytes of the number they spell.
pub proof fn lemma_u64_bytes_of_value(b: Seq<u8>)
    requires
        b.len() == 8,
    ensures
        u64_bytes(u64_value(b)) == b,
{
    reveal(u64_bytes);
    reveal(u64_value);
    let lo = u32_value(b.subrange(0, 4));
    let hi = u32_value(b.subrange(4, 8));
    lemma_u32_bytes_of_value(b.subrange(0, 4));
    lemma_u32_bytes_of_value(b.subrange(4, 8));
    assert(u64_value(b) % 0x1_0000_0000 == lo);
    assert(u64_value(b) / 0x1_0000_0000 == hi);
    assert(u64_bytes(u64_value(b)) =~= b);
}

/// Appends the four bytes of `v` to `out`.
pub fn put_u32(out: &mut Vec<u8>, v: u32)
    ensures
        final(out)@ == old(out)@ + u32_bytes(v),
{
    let b0: u8 = (v & 0xff) as u8;
    let b1: u8 = ((v >> 8) & 0xff) as u8;
    let b2: u8 = ((v >> 16) & 0xff) as u8;
    let b3: u8 = ((v >> 24) & 0xff) as u8;
    proof {
        reveal(u32_bytes);
        assert(v & 0xff == v % 0x100) by (bit_vector);
        assert((v >> 8) & 0xff == v / 0x100 % 0x100) by (bit_vector);
        assert((v >> 16) & 0xff == v / 0x1_0000 % 0x100) by (bit_vector);
        assert((v >> 24) & 0xff == v / 0x100_0000 % 0x100) by (bit_vector);
    }
    out.push(b0);
    out.push(b1);
    out.push(b2);
    out.push(b3);
    assert(out@ =~= old(out)@ + u32_bytes(v));
}

/// Appends the eight bytes of `v` to `out`.
pub fn put_u64(out: &mut Vec<u8>, v: u64)
    ensures
        final(out)@ == old(out)@ + u64_bytes(v),
{
    let lo: u32 = (v & 0xffff_ffff) as u32;
    let hi: u32 = (v >> 32) as u32;
    proof {
        reveal(u64_bytes);
        assert(v & 0xffff_ffff == v % 0x1_0000_0000) by (bit_vector);
        assert(v >> 32 == v / 0x1_0000_0000) by (bit_vector);
    }
    put_u32(out, lo);
    put_u32(out, hi);
    assert(out@ =~= old(out)@ + u64_bytes(v));
}

/// The 32-bit number stored at `at`.
pub fn get_u32(bytes: &[u8], at: usize) -> (v: u32)
    requires
        at + 4 <= bytes@.len(),
    ensures
        v == u32_value(bytes@.subrange(at as int, at + 4)),
{
    let b0: u32 = bytes[at] as u32;
    let b1: u32 = bytes[at + 1] as u32;
    let b2: u32 = bytes[at + 2] as u32;
    let b3: u32 = bytes[at + 3] as u32;
    proof {
        reveal(u32_value);
        assert(b0 < 0x100 && b1 < 0x100 && b2 < 0x100 && b3 < 0x100 ==> (b0 | (b1 << 8) | (b2
            << 16) | (b3 << 24)) == b0 + b1 * 0x100 + b2 * 0x1_0000 + b3 * 0x100_0000)
            by (bit_vector);
    }
    b0 | (b1 << 8) | (b2 << 16) | (b3 << 24)
}

/// The 64-bit number stored at `at`.
pub fn get_u64(bytes: &[u8], at: usize) -> (v: u64)
    requires
        at + 8 <= bytes@.len(),
    ensures
        v == u64_value(bytes@.subrange(at as int, at + 8)),
{
    let len: usize = bytes.len();
    let lo: u64 = get_u32(bytes, at) as u64;
    let hi: u64 = get_u32(bytes, at + 4) as u64;
    proof {
        reveal(u64_value);
        let b = bytes@.subrange(at as int, at + 8);
        assert(b.subrange(0, 4) =~= bytes@.subrange(at as int, at + 4));
        assert(b.subrange(4, 8) =~= bytes@.subrange(at + 4, at + 8));
        assert(lo < 0x1_0000_0000 && hi < 0x1_0000_0000 ==> (lo | (hi << 32)) == lo + hi
            * 0x1_0000_0000) by (bit_vector);
    }
    lo | (hi << 32)
}

} // verus!
