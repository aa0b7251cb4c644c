//! Search a 128-bit vector at a time: compare all `SIMD_LANES` bytes of a
//! block with the pattern's first byte in one SIMD instruction (through the
//! `wide` crate), then visit the lanes that matched.
use vstd::prelude::*;
use vstd::std_specs::bits::axiom_u32_trailing_zeros;

use crate::positions::{
    lemma_occurs_at_short_pattern, lemma_starts_before_skip, match_positions, occurs_at,
    pattern_continues, pattern_of, starts_before,
};
use crate::SIMD_LANES;

verus! {

/// Whether bit `j` of a 32-bit mask is set.
pub open spec fn mask_bit(x: u32, j: u32) -> bool {
    (x >> j) & 1u32 == 1u32
}

/// `wide::u8x16::simd_eq` between the vector holding `block` (built with
/// `u8x16::new`) and the vector holding `pattern` in every lane (built with
/// `u8x16::splat`), gathered into an integer with `u8x16::to_bitmask`: bit `j`
/// of the result is set exactly when lane `j` of `block` equals `pattern`, and
/// the bits above the sixteen lanes are clear.
#[verifier::external_body]
fn lanes_equal_bitmask(block: [u8; SIMD_LANES], pattern: u8) -> (r: u32)
    ensures
        forall|j: u32|
            j < 32 ==> (#[trigger] mask_bit(r, j) <==> (j < 16 && block@[j as int] == pattern)),
{
    wide::u8x16::new(block).simd_eq(wide::u8x16::splat(pattern)).to_bitmask()
}

/// SIMD counterpart to `zero_byte_mask`: compares a 16-byte block against a
/// broadcast `pattern` and returns a bitmask with bit `j` set exactly for each
/// lane `j` that matches.
pub fn simd_match_mask(block: [u8; SIMD_LANES], pattern: u8) -> (r: u32)
    ensures
        forall|j: u32|
            j < 32 ==> (#[trigger] mask_bit(r, j) <==> (j < 16 && block@[j as int] == pattern)),
{
    lanes_equal_bitmask(block, pattern)
}

proof fn lemma_zero_mask_has_no_bits()
    by (bit_vector)
    ensures
        forall|j: u32| #![trigger (0u32 >> j)] (0u32 >> j) & 1u32 != 1u32,
{
}

/// `x & (x - 1)` clears the lowest set bit `t` of `x` and keeps every other.
proof fn lemma_clear_lowest_mask_bit(x: u32, y: u32, t: u32)
    by (bit_vector)
    requires
        x != 0u32,
        y == x - 1,
        t < 32u32,
        (x >> t) & 1u32 == 1u32,
        x << ((32 - t) as u32) == 0u32,
    ensures
        forall|j: u32|
            #![trigger ((x & y) >> j)]
            j < 32u32 ==> ((((x & y) >> j) & 1u32 == 1u32) <==> ((x >> j) & 1u32 == 1u32 && j
                != t)),
        forall|j: u32| #![trigger (x >> j)] j < t ==> (x >> j) & 1u32 != 1u32,
{
}

/// Every index at which the pattern `first` (then `second`, where given)
/// begins in `data`, in increasing order, found `SIMD_LANES` bytes at a time.
pub fn simd_search(data: &[u8], first: u8, second: Option<u8>) -> (positions: Vec<usize>)
    ensures
        positions@ == match_positions(data@, pattern_of(first, second)),
{
    let ghost pat = pattern_of(first, second);
    let len = data.len();
    let mut positions: Vec<usize> = Vec::new();
    let mut base: usize = 0;
    while len - base >= SIMD_LANES
        invariant
            len == data.len(),
            base <= len,
            pat == pattern_of(first, second),
            positions@ == starts_before(data@, pat, base as nat),
        decreases len - base,
    {
        let block: [u8; SIMD_LANES] = [
            data[base],
            data[base + 1],
            data[base + 2],
            data[base + 3],
            data[base + 4],
            data[base + 5],
            data[base + 6],
            data[base + 7],
            data[base + 8],
            data[base + 9],
            data[base + 10],
            data[base + 11],
            data[base + 12],
            data[base + 13],
            data[base + 14],
            data[base + 15],
        ];
        // Flag lanes equal to the first byte (one SIMD compare).
        let mut mask = simd_match_mask(block, first);
        let ghost mut done: u32 = 0;
        proof {
            assert(block@ == data@.subrange(base as int, base + 16));
        }
        while mask != 0
            invariant
                len == data.len(),
                base + SIMD_LANES <= len,
                pat == pattern_of(first, second),
                done <= 16,
                forall|j: u32|
                    j < 32 ==> (#[trigger] mask_bit(mask, j) <==> (j < 16 && j >= done
                        && data@[base + j] == first)),
                positions@ == starts_before(data@, pat, (base + done) as nat),
            decreases 16 - done,
        {
            let tz = mask.trailing_zeros();
            proof {
                axiom_u32_trailing_zeros(mask);
                lemma_clear_lowest_mask_bit(mask, (mask - 1) as u32, tz);
                assert(mask_bit(mask, tz));
            }
            let lane = tz as usize;
            let index = base + lane;
            proof {
                assert forall|i: int| base + done <= i < index implies !#[trigger] occurs_at(
                    data@,
                    pat,
                    i,
                ) by {
                    let j = (i - base) as u32;
                    assert(!mask_bit(mask, j));
                    lemma_occurs_at_short_pattern(data@, first, second, i);
                }
                lemma_starts_before_skip(data@, pat, (base + done) as nat, index as nat);
                lemma_occurs_at_short_pattern(data@, first, second, index as int);
            }
            // Confirm the following byte where the pattern has two.
            if pattern_continues(data, index, second) {
                positions.push(index);
            }
            let ghost old_mask = mask;
            mask = mask & (mask - 1);
            proof {
                done = (tz + 1) as u32;
                assert forall|j: u32| j < 32 implies (#[trigger] mask_bit(mask, j) <==> (j < 16 && j
                    >= done && data@[base + j] == first)) by {
                    assert(mask_bit(mask, j) <==> (mask_bit(old_mask, j) && j != tz));
                    if j < tz {
                        assert(!mask_bit(old_mask, j));
                    }
                }
            }
        }
        proof {
            lemma_zero_mask_has_no_bits();
            assert forall|i: int| base + done <= i < base + SIMD_LANES implies !#[trigger] occurs_at(
                data@,
                pat,
                i,
            ) by {
                let j = (i - base) as u32;
                assert(!mask_bit(mask, j));
                lemma_occurs_at_short_pattern(data@, first, second, i);
            }
            lemma_starts_before_skip(data@, pat, (base + done) as nat, (base + SIMD_LANES) as nat);
        }
        base = base + SIMD_LANES;
    }
    // The bytes after the last whole vector.
    let mut index = base;
    while index < len
        invariant
            len == data.len(),
            index <= len,
            pat == pattern_of(first, second),
            positions@ == starts_before(data@, pat, index as nat),
        decreases len - index,
    {
        proof {
            lemma_occurs_at_short_pattern(data@, first, second, index as int);
        }
        if data[index] == first && pattern_continues(data, index, second) {
            positions.push(index);
        }
        index = index + 1;
    }
    positions
}

} // verus!
