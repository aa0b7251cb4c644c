//! Byte search over in-memory slices: every index at which a one- or
//! two-byte pattern begins, found a machine word at a time (SWAR) or a
//! 128-bit vector at a time (SIMD).
use vstd::prelude::*;

pub mod positions;
pub mod simd;
pub mod swar;

pub use simd::{simd_match_mask, simd_search};
pub use swar::swar_search;

verus! {

/// Byte lanes in a machine word (`usize`): 8 on 64-bit, 4 on 32-bit.
pub const WORD_BYTES: usize = (usize::BITS / 8) as usize;

/// `0x01` in every byte lane of a `usize`.
pub const LANE_ONES: usize = !0usize / 0xFF;

/// The low seven bits of every byte lane set.
pub const LANE_LOW_7_BITS: usize = LANE_ONES * 0x7F;

/// The high bit of every byte lane set.
pub const LANE_HIGH_BITS: usize = LANE_ONES * 0x80;

/// Bytes processed per SIMD iteration: one 128-bit vector.
pub const SIMD_LANES: usize = 16;

/// Byte lane `k` of a word (lane 0 is the least significant byte).
pub open spec fn lane(x: usize, k: usize) -> usize {
    (x >> (k << 3usize)) & 0xFFusize
}

/// Whether bit `b` of a word is set.
pub open spec fn bit_set(x: usize, b: usize) -> bool {
    (x >> b) & 1usize == 1usize
}

/// `!0` is the largest `usize`.
proof fn lemma_all_ones_is_max(x: usize)
    by (bit_vector)
    ensures
        x <= !0usize,
{
}

proof fn lemma_zero_byte_mask_bits(value: usize, r: usize)
    by (bit_vector)
    requires
        r == !((((value & LANE_LOW_7_BITS) + LANE_LOW_7_BITS) as usize) | value | LANE_LOW_7_BITS) & LANE_HIGH_BITS,
    ensures
        forall|b: usize| b < usize::BITS ==>
            (((r >> b) & 1usize == 1usize) <==> (b % 8 == 7 && (value >> ((b / 8) << 3usize)) & 0xFFusize == 0usize)),
{
}

/// Flag zero bytes in a `usize`: returns a mask with bit 7 set in each byte
/// lane that is zero and every other bit clear.
pub fn zero_byte_mask(value: usize) -> (r: usize)
    ensures
        forall|b: usize| b < usize::BITS ==>
            (#[trigger] bit_set(r, b) <==> (b % 8 == 7 && lane(value, b / 8) == 0)),
{
    proof {
        assert((value & LANE_LOW_7_BITS) + LANE_LOW_7_BITS <= !0usize) by (bit_vector);
        lemma_all_ones_is_max(usize::MAX);
    }
    // Each lane's sum stays below 0x100: no carry crosses a lane and the
    // addition never wraps.
    let tmp = ((value & LANE_LOW_7_BITS) + LANE_LOW_7_BITS) | value | LANE_LOW_7_BITS;
    let r = !tmp & LANE_HIGH_BITS;
    proof {
        lemma_zero_byte_mask_bits(value, r);
    }
    r
}

proof fn lemma_broadcast_lanes(b: usize, r: usize)
    by (bit_vector)
    requires
        b < 256,
        r == (b * LANE_ONES) as usize,
    ensures
        forall|k: usize| k * 8 < usize::BITS ==> (r >> (k << 3usize)) & 0xFFusize == b,
{
}

proof fn lemma_broadcast_no_overflow(b: usize)
    by (bit_vector)
    requires
        b < 256,
    ensures
        b * LANE_ONES <= !0usize,
{
}

/// The word holding `byte` in every lane: `byte` times `LANE_ONES`.
pub open spec fn splat_word(byte: u8) -> usize {
    ((byte as usize) * LANE_ONES) as usize
}

proof fn lemma_lane_ones_distributes(a: usize, b: usize)
    by (bit_vector)
    requires
        a < 256,
        b < 256,
    ensures
        ((a ^ b) * LANE_ONES) as usize == ((a * LANE_ONES) as usize) ^ ((b * LANE_ONES) as usize),
        ((a & b) * LANE_ONES) as usize == ((a * LANE_ONES) as usize) & ((b * LANE_ONES) as usize),
{
}

/// Broadcasting commutes with the lane-wise bit operations: the word of
/// `a ^ b` is the XOR of the words of `a` and `b`, and likewise for `&`.
pub proof fn lemma_broadcast_xor_and(a: u8, b: u8)
    ensures
        splat_word(a ^ b) == splat_word(a) ^ splat_word(b),
        splat_word(a & b) == splat_word(a) & splat_word(b),
{
    assert((a ^ b) as usize == (a as usize) ^ (b as usize));
    assert((a & b) as usize == (a as usize) & (b as usize));
    lemma_lane_ones_distributes(a as usize, b as usize);
}

/// Broadcast a byte into every lane of a `usize`.
pub fn broadcast(byte: u8) -> (r: usize)
    ensures
        r == splat_word(byte),
        forall|k: usize| k < WORD_BYTES ==> #[trigger] lane(r, k) == byte as usize,
{
    proof {
        lemma_broadcast_no_overflow(byte as usize);
        lemma_all_ones_is_max(usize::MAX);
    }
    let r = (byte as usize) * LANE_ONES;
    proof {
        lemma_broadcast_lanes(byte as usize, r);
    }
    r
}

} // verus!
