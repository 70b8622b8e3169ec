//! Little-endian encodings of the fixed-width integers used by the wire
//! codec, with exec readers and writers proved against the spec forms.

use vstd::prelude::*;

verus! {

/// The eight little-endian bytes of a 64-bit value.
pub open spec fn u64_le(x: u64) -> Seq<u8> {
    seq![
        (x & 0xff) as u8,
        ((x >> 8) & 0xff) as u8,
        ((x >> 16) & 0xff) as u8,
        ((x >> 24) & 0xff) as u8,
        ((x >> 32) & 0xff) as u8,
        ((x >> 40) & 0xff) as u8,
        ((x >> 48) & 0xff) as u8,
        ((x >> 56) & 0xff) as u8,
    ]
}

/// The 64-bit value read little-endian from eight bytes.
pub open spec fn u64_of_le(b: Seq<u8>) -> u64
    recommends
        b.len() == 8,
{
    ((b[0] as u64) | ((b[1] as u64) << 8) | ((b[2] as u64) << 16) | ((b[3] as u64) << 24) | ((
    b[4] as u64) << 32) | ((b[5] as u64) << 40) | ((b[6] as u64) << 48) | ((b[7] as u64) << 56))
}

/// The four little-endian bytes of a 32-bit value.
pub open spec fn u32_le(x: u32) -> Seq<u8> {
    seq![
        (x & 0xff) as u8,
        ((x >> 8) & 0xff) as u8,
        ((x >> 16) & 0xff) as u8,
        ((x >> 24) & 0xff) as u8,
    ]
}

/// The 32-bit value read little-endian from four bytes.
pub open spec fn u32_of_le(b: Seq<u8>) -> u32
    recommends
        b.len() == 4,
{
    ((b[0] as u32) | ((b[1] as u32) << 8) | ((b[2] as u32) << 16) | ((b[3] as u32) << 24))
}

/// A signed 32-bit value mapped onto its two's-complement 32-bit pattern.
pub open spec fn i32_to_u32(x: i32) -> u32 {
    if x >= 0 {
        x as u32
    } else {
        (x + 0x1_0000_0000) as u32
    }
}

/// The signed reading of a two's-complement 32-bit pattern.
pub open spec fn u32_to_i32(y: u32) -> i32 {
    if y < 0x8000_0000 {
        y as i32
    } else {
        (y - 0x1_0000_0000) as i32
    }
}

pub proof fn lemma_i32_u32_round_trip(x: i32)
    ensures
        u32_to_i32(i32_to_u32(x)) == x,
{
}

pub proof fn lemma_u64_le_round_trip(x: u64)
    ensures
        u64_of_le(u64_le(x)) == x,
{
    let b = u64_le(x);
    assert(((((x & 0xff) as u8) as u64) | (((((x >> 8) & 0xff) as u8) as u64) << 8) | (((((x
        >> 16) & 0xff) as u8) as u64) << 16) | (((((x >> 24) & 0xff) as u8) as u64) << 24)
        | (((((x >> 32) & 0xff) as u8) as u64) << 32) | (((((x >> 40) & 0xff) as u8) as u64) << 40)
        | (((((x >> 48) & 0xff) as u8) as u64) << 48) | (((((x >> 56) & 0xff) as u8) as u64) << 56))
        == x) by (bit_vector);
}

pub proof fn lemma_u32_le_round_trip(x: u32)
    ensures
        u32_of_le(u32_le(x)) == x,
{
    let b = u32_le(x);
    assert(((((x & 0xff) as u8) as u32) | (((((x >> 8) & 0xff) as u8) as u32) << 8) | (((((x
        >> 16) & 0xff) as u8) as u32) << 16) | (((((x >> 24) & 0xff) as u8) as u32) << 24)) == x)
        by (bit_vector);
}

proof fn lemma_u64_byte_mask(x: u64)
    ensures
        x & 0xff < 256,
{
    assert(x & 0xff < 256) by (bit_vector);
}

proof fn lemma_u32_byte_mask(x: u32)
    ensures
        x & 0xff < 256,
{
    assert(x & 0xff < 256) by (bit_vector);
}

/// Appends the eight little-endian bytes of `x`.
pub fn push_u64_le(out: &mut Vec<u8>, x: u64)
    ensures
        final(out)@ == old(out)@ + u64_le(x),
{
    proof {
        lemma_u64_byte_mask(x);
        lemma_u64_byte_mask(x >> 8);
        lemma_u64_byte_mask(x >> 16);
        lemma_u64_byte_mask(x >> 24);
        lemma_u64_byte_mask(x >> 32);
        lemma_u64_byte_mask(x >> 40);
        lemma_u64_byte_mask(x >> 48);
        lemma_u64_byte_mask(x >> 56);
    }
    out.push((x & 0xff) as u8);
    out.push(((x >> 8) & 0xff) as u8);
    out.push(((x >> 16) & 0xff) as u8);
    out.push(((x >> 24) & 0xff) as u8);
    out.push(((x >> 32) & 0xff) as u8);
    out.push(((x >> 40) & 0xff) as u8);
    out.push(((x >> 48) & 0xff) as u8);
    out.push(((x >> 56) & 0xff) as u8);
    assert(final(out)@ =~= old(out)@ + u64_le(x));
}

/// Appends the four little-endian bytes of `x`.
pub fn push_u32_le(out: &mut Vec<u8>, x: u32)
    ensures
        final(out)@ == old(out)@ + u32_le(x),
{
    proof {
        lemma_u32_byte_mask(x);
        lemma_u32_byte_mask(x >> 8);
        lemma_u32_byte_mask(x >> 16);
        lemma_u32_byte_mask(x >> 24);
    }
    out.push((x & 0xff) as u8);
    out.push(((x >> 8) & 0xff) as u8);
    out.push(((x >> 16) & 0xff) as u8);
    out.push(((x >> 24) & 0xff) as u8);
    assert(final(out)@ =~= old(out)@ + u32_le(x));
}

/// Reads the 64-bit value stored little-endian at `off`.
pub fn read_u64_le(data: &Vec<u8>, off: usize) -> (r: u64)
    requires
        off + 8 <= data@.len(),
    ensures
        r == u64_of_le(data@.subrange(off as int, off as int + 8)),
{
    let n: usize = data.len();
    let r = (data[off] as u64) | ((data[off + 1] as u64) << 8u64) | ((data[off + 2] as u64)
        << 16u64) | ((data[off + 3] as u64) << 24u64) | ((data[off + 4] as u64) << 32u64) | ((data[
    off + 5] as u64) << 40u64) | ((data[off + 6] as u64) << 48u64) | ((data[off + 7] as u64)
        << 56u64);
    proof {
        let b = data@.subrange(off as int, off as int + 8);
        assert(b[0] == data@[off as int]);
        assert(b[1] == data@[off as int + 1]);
        assert(b[2] == data@[off as int + 2]);
        assert(b[3] == data@[off as int + 3]);
        assert(b[4] == data@[off as int + 4]);
        assert(b[5] == data@[off as int + 5]);
        assert(b[6] == data@[off as int + 6]);
        assert(b[7] == data@[off as int + 7]);
    }
    r
}

/// Reads the 32-bit value stored little-endian at `off`.
pub fn read_u32_le(data: &Vec<u8>, off: usize) -> (r: u32)
    requires
        off + 4 <= data@.len(),
    ensures
        r == u32_of_le(data@.subrange(off as int, off as int + 4)),
{
    let n: usize = data.len();
    let r = (data[off] as u32) | ((data[off + 1] as u32) << 8u32) | ((data[off + 2] as u32)
        << 16u32) | ((data[off + 3] as u32) << 24u32);
    proof {
        let b = data@.subrange(off as int, off as int + 4);
        assert(b[0] == data@[off as int]);
        assert(b[1] == data@[off as int + 1]);
        assert(b[2] == data@[off as int + 2]);
        assert(b[3] == data@[off as int + 3]);
    }
    r
}

/// The two's-complement pattern of a signed 32-bit value.
pub fn encode_i32(x: i32) -> (r: u32)
    ensures
        r == i32_to_u32(x),
{
    if x >= 0 {
        x as u32
    } else {
        let v: i64 = (x as i64) + 0x1_0000_0000i64;
        v as u32
    }
}

/// The signed value of a two's-complement 32-bit pattern.
pub fn decode_i32(y: u32) -> (r: i32)
    ensures
        r == u32_to_i32(y),
{
    if y < 0x8000_0000u32 {
        y as i32
    } else {
        let v: i64 = (y as i64) - 0x1_0000_0000i64;
        v as i32
    }
}

} // verus!
