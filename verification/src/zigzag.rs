//! ZigZag: a bijection between the signed and the unsigned 32-bit integers
//! that keeps values of small magnitude small.

use vstd::prelude::*;

verus! {

/// The zigzag image of `x`: `0, -1, 1, -2, 2, ...` go to `0, 1, 2, 3, 4, ...`.
pub open spec fn zigzag(x: int) -> int {
    if x >= 0 {
        2 * x
    } else {
        -2 * x - 1
    }
}

/// The inverse of [`zigzag`] on the natural numbers: even numbers come from
/// non-negative inputs, odd numbers from negative ones.
pub open spec fn unzigzag(u: int) -> int {
    if u % 2 == 0 {
        u / 2
    } else {
        -(u / 2) - 1
    }
}

/// Zigzag-encodes a signed 32-bit integer.
pub fn encode(value: i32) -> (out: u32)
    ensures
        out == zigzag(value as int),
{
    let out = ((value << 1) ^ (value >> 31)) as u32;
    assert(out == (if value >= 0 { 2 * value } else { -2 * value - 1 })) by (bit_vector)
        requires
            out == ((value << 1) ^ (value >> 31)) as u32,
    ;
    out
}

/// Recovers the signed integer from its zigzag image.
pub fn decode(value: u32) -> (out: i32)
    ensures
        out == unzigzag(value as int),
{
    let shifted: u32 = value >> 1;
    let low: u32 = value & 1;
    assert(shifted == value / 2 && low == value % 2 && shifted <= 0x7fff_ffff) by (bit_vector)
        requires
            shifted == value >> 1,
            low == value & 1,
    ;
    let half = shifted as i32;
    let sign = low as i32;
    let mask = -sign;
    let out = half ^ mask;
    assert(out == (if mask == 0 { half as int } else { -half - 1 })) by (bit_vector)
        requires
            out == half ^ mask,
            mask == 0 || mask == -1,
    ;
    out
}

/// `decode` undoes `encode` on every 32-bit signed integer, and the image of
/// such an integer fits in 32 unsigned bits.
pub proof fn lemma_decode_encode(x: i32)
    ensures
        0 <= zigzag(x as int) <= u32::MAX,
        unzigzag(zigzag(x as int)) == x,
{
}

/// Even images come from non-negative integers and odd images from
/// negative ones, and an image grows with the magnitude of the integer.
pub proof fn lemma_image_order(x: int, y: int)
    ensures
        zigzag(x) >= 0,
        zigzag(x) % 2 == 0 <==> x >= 0,
        (x >= 0 && y >= 0 && x < y) ==> zigzag(x) < zigzag(y),
        (x < 0 && y < 0 && x > y) ==> zigzag(x) < zigzag(y),
{
}

/// `encode` undoes `decode` on every 32-bit unsigned integer, and the
/// preimage of such an integer fits in 32 signed bits.
pub proof fn lemma_encode_decode(u: u32)
    ensures
        i32::MIN <= unzigzag(u as int) <= i32::MAX,
        zigzag(unzigzag(u as int)) == u,
{
}

} // verus!
