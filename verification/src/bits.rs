//! Bit-level helpers: a byte as a sequence of bits (most significant first)
//! and packing bit sequences back into octets and 16-bit segments.

use vstd::prelude::*;
use vstd::slice::slice_subrange;

verus! {

/// The bit of `x` at position `i`, counting the most significant bit
/// (value 128) as position 0.
pub open spec fn bit_at(x: u8, i: int) -> bool
    recommends
        0 <= i < 8,
{
    if i == 0 {
        x / 128 % 2 == 1
    } else if i == 1 {
        x / 64 % 2 == 1
    } else if i == 2 {
        x / 32 % 2 == 1
    } else if i == 3 {
        x / 16 % 2 == 1
    } else if i == 4 {
        x / 8 % 2 == 1
    } else if i == 5 {
        x / 4 % 2 == 1
    } else if i == 6 {
        x / 2 % 2 == 1
    } else {
        x % 2 == 1
    }
}

/// The eight bits of `x`, most significant first.
pub open spec fn byte_bits(x: u8) -> Seq<bool> {
    Seq::new(8, |i: int| bit_at(x, i))
}

/// 1 for a set bit, 0 for a clear one.
pub open spec fn bitv(b: bool) -> int {
    if b {
        1
    } else {
        0
    }
}

/// The byte whose bits, most significant first, are `b`.
pub open spec fn octet_of_bits(b: Seq<bool>) -> u8
    recommends
        b.len() == 8,
{
    (bitv(b[0]) * 128 + bitv(b[1]) * 64 + bitv(b[2]) * 32 + bitv(b[3]) * 16 + bitv(b[4]) * 8
        + bitv(b[5]) * 4 + bitv(b[6]) * 2 + bitv(b[7])) as u8
}

/// The 16-bit value whose bits, most significant first, are `b`.
pub open spec fn segment_of_bits(b: Seq<bool>) -> u16
    recommends
        b.len() == 16,
{
    (octet_of_bits(b.take(8)) as int * 256 + octet_of_bits(b.skip(8)) as int) as u16
}

/// The eight bits of `x` as a vector, most significant first.
pub fn get_bits(x: u8) -> (r: Vec<bool>)
    ensures
        r@.len() == 8,
        forall|i: int| 0 <= i < 8 ==> r@[i] == bit_at(x, i),
        r@ == byte_bits(x),
{
    let mut r: Vec<bool> = Vec::new();
    r.push(x / 128 % 2 == 1);
    r.push(x / 64 % 2 == 1);
    r.push(x / 32 % 2 == 1);
    r.push(x / 16 % 2 == 1);
    r.push(x / 8 % 2 == 1);
    r.push(x / 4 % 2 == 1);
    r.push(x / 2 % 2 == 1);
    r.push(x % 2 == 1);
    proof {
        assert(r@ =~= byte_bits(x));
    }
    r
}

/// Packs eight bits, most significant first, into a byte.
pub fn get_octet(bits: &[bool]) -> (r: u8)
    requires
        bits@.len() == 8,
    ensures
        r == octet_of_bits(bits@),
{
    let mut r: u8 = 0;
    if bits[0] {
        r = r + 128;
    }
    if bits[1] {
        r = r + 64;
    }
    if bits[2] {
        r = r + 32;
    }
    if bits[3] {
        r = r + 16;
    }
    if bits[4] {
        r = r + 8;
    }
    if bits[5] {
        r = r + 4;
    }
    if bits[6] {
        r = r + 2;
    }
    if bits[7] {
        r = r + 1;
    }
    r
}

/// Packs sixteen bits, most significant first, into a 16-bit segment.
pub fn get_segment(bits: &[bool]) -> (r: u16)
    requires
        bits@.len() == 16,
    ensures
        r == segment_of_bits(bits@),
{
    let hi = get_octet(slice_subrange(bits, 0, 8));
    let lo = get_octet(slice_subrange(bits, 8, 16));
    proof {
        assert(bits@.subrange(0, 8) =~= bits@.take(8));
        assert(bits@.subrange(8, 16) =~= bits@.skip(8));
    }
    (hi as u16) * 256 + (lo as u16)
}

} // verus!
