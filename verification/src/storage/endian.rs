//! Big-endian images of 32-bit integers.

use vstd::prelude::*;

verus! {

/// The four bytes of `x`, most significant first.
pub open spec fn be_bytes_u32(x: u32) -> Seq<u8> {
    seq![
        (x / 0x100_0000) as u8,
        ((x / 0x1_0000) % 0x100) as u8,
        ((x / 0x100) % 0x100) as u8,
        (x % 0x100) as u8,
    ]
}

/// The number whose big-endian image is the first four bytes of `b`.
pub open spec fn u32_of_be_bytes(b: Seq<u8>) -> u32
    recommends
        b.len() >= 4,
{
    (b[0] as int * 0x100_0000 + b[1] as int * 0x1_0000 + b[2] as int * 0x100 + b[3] as int) as u32
}

/// The two's-complement bit pattern of `v`.
pub open spec fn bits_of_i32(v: i32) -> u32 {
    if v >= 0 {
        v as u32
    } else {
        (v as int + 0x1_0000_0000) as u32
    }
}

/// The signed number with the two's-complement bit pattern `u`.
pub open spec fn i32_of_bits(u: u32) -> i32 {
    if u < 0x8000_0000 {
        u as i32
    } else {
        (u as int - 0x1_0000_0000) as i32
    }
}

/// The four bytes of `v` in two's complement, most significant first.
pub open spec fn be_bytes_i32(v: i32) -> Seq<u8> {
    be_bytes_u32(bits_of_i32(v))
}

/// The signed number whose big-endian image is the first four bytes of `b`.
pub open spec fn i32_of_be_bytes(b: Seq<u8>) -> i32
    recommends
        b.len() >= 4,
{
    i32_of_bits(u32_of_be_bytes(b))
}

/// Reading back the image of a number gives the number.
pub proof fn lemma_be_u32_round_trip(x: u32)
    ensures
        be_bytes_u32(x).len() == 4,
        u32_of_be_bytes(be_bytes_u32(x)) == x,
{
}

/// Reading back the image of a signed number gives the number.
pub proof fn lemma_be_i32_round_trip(v: i32)
    ensures
        be_bytes_i32(v).len() == 4,
        i32_of_be_bytes(be_bytes_i32(v)) == v,
{
    lemma_be_u32_round_trip(bits_of_i32(v));
}

/// Appends the big-endian image of `x` to `out`.
pub fn push_be_u32(out: &mut Vec<u8>, x: u32)
    ensures
        final(out)@ == old(out)@ + be_bytes_u32(x),
{
    out.push((x / 0x100_0000) as u8);
    out.push(((x / 0x1_0000) % 0x100) as u8);
    out.push(((x / 0x100) % 0x100) as u8);
    out.push((x % 0x100) as u8);
    assert(out@ =~= old(out)@ + be_bytes_u32(x));
}

/// Appends the big-endian two's-complement image of `v` to `out`.
pub fn push_be_i32(out: &mut Vec<u8>, v: i32)
    ensures
        final(out)@ == old(out)@ + be_bytes_i32(v),
{
    let wide: i64 = v as i64;
    let bits: u32 = if wide >= 0 {
        wide as u32
    } else {
        (wide + 0x1_0000_0000) as u32
    };
    push_be_u32(out, bits);
}

/// Reads the number whose big-endian image starts at `at`.
pub fn read_be_u32(raw: &[u8], at: usize) -> (x: u32)
    requires
        at + 4 <= raw@.len(),
    ensures
        x == u32_of_be_bytes(raw@.subrange(at as int, at + 4)),
{
    let b0: u32 = raw[at] as u32;
    let b1: u32 = raw[at + 1] as u32;
    let b2: u32 = raw[at + 2] as u32;
    let b3: u32 = raw[at + 3] as u32;
    b0 * 0x100_0000 + b1 * 0x1_0000 + b2 * 0x100 + b3
}

/// Reads the signed number whose big-endian image starts at `at`.
pub fn read_be_i32(raw: &[u8], at: usize) -> (v: i32)
    requires
        at + 4 <= raw@.len(),
    ensures
        v == i32_of_be_bytes(raw@.subrange(at as int, at + 4)),
{
    let bits: u32 = read_be_u32(raw, at);
    if bits < 0x8000_0000 {
        bits as i32
    } else {
        (bits as i64 - 0x1_0000_0000) as i32
    }
}

/// The eight bytes of `x`, most significant first.
pub open spec fn be_bytes_u64(x: u64) -> Seq<u8> {
    be_bytes_u32((x / 0x1_0000_0000) as u32) + be_bytes_u32((x % 0x1_0000_0000) as u32)
}

/// The eight bytes of `x`, most significant first.
pub fn be_bytes_of_u64(x: u64) -> (r: Vec<u8>)
    ensures
        r@ == be_bytes_u64(x),
{
    let mut r: Vec<u8> = Vec::new();
    push_be_u32(&mut r, (x / 0x1_0000_0000) as u32);
    push_be_u32(&mut r, (x % 0x1_0000_0000) as u32);
    r
}

} // verus!
