//! Search a machine word at a time: flag the byte lanes of a word that equal
//! the pattern's first byte with one SWAR computation, then visit the flags.
use vstd::prelude::*;

use crate::positions::{
    lemma_occurs_at_short_pattern, lemma_starts_before_skip, match_positions, occurs_at,
    pattern_continues, pattern_of, starts_before,
};
use crate::{bit_set, broadcast, lane, zero_byte_mask, WORD_BYTES};

verus! {

/// Reads `WORD_BYTES` bytes of `data` from index `at` on as one little-endian
/// word, with `usize::from_le_bytes`: byte `at + k` becomes byte lane `k`.
#[verifier::external_body]
fn load_word_le(data: &[u8], at: usize) -> (word: usize)
    requires
        at + WORD_BYTES <= data.len(),
    ensures
        forall|k: usize| k < WORD_BYTES ==> #[trigger] lane(word, k) == data@[at + k] as usize,
{
    usize::from_le_bytes(data[at..at + WORD_BYTES].try_into().unwrap())
}

/// `usize::trailing_zeros`: the number of zero bits below the lowest set bit
/// of `x`, which is `usize::BITS` when `x` is zero.
#[verifier::external_body]
fn trailing_zeros(x: usize) -> (r: u32)
    ensures
        r <= usize::BITS,
        r == usize::BITS <==> x == 0,
        r < usize::BITS ==> (x >> (r as usize)) & 1usize == 1usize,
        (x >> (r as usize)) << (r as usize) == x,
{
    x.trailing_zeros()
}

proof fn lemma_xor_lanes(x: usize, y: usize)
    by (bit_vector)
    ensures
        forall|s: usize|
            #![trigger ((x ^ y) >> s)]
            (((x ^ y) >> s) & 0xFFusize == 0usize) <==> ((x >> s) & 0xFFusize == (y >> s)
                & 0xFFusize),
{
}

proof fn lemma_zero_has_no_bits()
    by (bit_vector)
    ensures
        forall|b: usize| #![trigger (0usize >> b)] (0usize >> b) & 1usize != 1usize,
{
}

/// `x & (x - 1)` clears the lowest set bit `t` of `x` and keeps every other.
proof fn lemma_clear_lowest_bit(x: usize, y: usize, t: usize)
    by (bit_vector)
    requires
        x != 0usize,
        y == x - 1,
        t < usize::BITS,
        (x >> t) & 1usize == 1usize,
        (x >> t) << t == x,
    ensures
        forall|j: usize|
            #![trigger ((x & y) >> j)]
            j < usize::BITS ==> ((((x & y) >> j) & 1usize == 1usize) <==> ((x >> j) & 1usize
                == 1usize && j != t)),
        forall|j: usize| #![trigger (x >> j)] j < t ==> (x >> j) & 1usize != 1usize,
{
}

/// The lanes of `word ^ pattern` that `zero_byte_mask` flags are those where
/// the data byte equals `first`.
proof fn lemma_word_flags(
    data: Seq<u8>,
    base: usize,
    first: u8,
    word: usize,
    pattern: usize,
    mask: usize,
)
    requires
        base + WORD_BYTES <= data.len(),
        forall|k: usize| k < WORD_BYTES ==> #[trigger] lane(word, k) == data[base + k] as usize,
        forall|k: usize| k < WORD_BYTES ==> #[trigger] lane(pattern, k) == first as usize,
        forall|b: usize|
            b < usize::BITS ==> (#[trigger] bit_set(mask, b) <==> (b % 8 == 7 && lane(
                word ^ pattern,
                b / 8,
            ) == 0)),
    ensures
        forall|b: usize|
            b < usize::BITS ==> (#[trigger] bit_set(mask, b) <==> (b % 8 == 7 && data[base + b
                / 8] == first)),
{
    lemma_xor_lanes(word, pattern);
    assert forall|b: usize| b < usize::BITS implies (#[trigger] bit_set(mask, b) <==> (b % 8 == 7
        && data[base + b / 8] == first)) by {
        let k = b / 8;
        assert(k < WORD_BYTES);
        assert(lane(word, k) == data[base + k] as usize);
        assert(lane(pattern, k) == first as usize);
    }
}

/// Every index at which the pattern `first` (then `second`, where given)
/// begins in `data`, in increasing order, found a machine word at a time.
pub fn swar_search(data: &[u8], first: u8, second: Option<u8>) -> (positions: Vec<usize>)
    ensures
        positions@ == match_positions(data@, pattern_of(first, second)),
{
    let ghost pat = pattern_of(first, second);
    let pattern = broadcast(first);
    let len = data.len();
    let mut positions: Vec<usize> = Vec::new();
    let mut base: usize = 0;
    while len - base >= WORD_BYTES
        invariant
            len == data.len(),
            base <= len,
            pat == pattern_of(first, second),
            forall|k: usize| k < WORD_BYTES ==> #[trigger] lane(pattern, k) == first as usize,
            positions@ == starts_before(data@, pat, base as nat),
        decreases len - base,
    {
        let word = load_word_le(data, base);
        // Flag lanes equal to the first byte.
        let mut mask = zero_byte_mask(word ^ pattern);
        proof {
            lemma_word_flags(data@, base, first, word, pattern, mask);
        }
        let ghost mut done: usize = 0;
        while mask != 0
            invariant
                len == data.len(),
                base + WORD_BYTES <= len,
                pat == pattern_of(first, second),
                done <= WORD_BYTES,
                forall|b: usize|
                    b < usize::BITS ==> (#[trigger] bit_set(mask, b) <==> (b % 8 == 7 && b / 8
                        >= done && data@[base + b / 8] == first)),
                positions@ == starts_before(data@, pat, (base + done) as nat),
            decreases WORD_BYTES - done,
        {
            let tz = trailing_zeros(mask);
            let ghost t = tz as usize;
            proof {
                lemma_clear_lowest_bit(mask, (mask - 1) as usize, t);
                assert(bit_set(mask, t));
            }
            let byte_offset = (tz as usize) / 8;
            let index = base + byte_offset;
            proof {
                assert forall|i: int| base + done <= i < index implies !#[trigger] occurs_at(
                    data@,
                    pat,
                    i,
                ) by {
                    let b = ((i - base) * 8 + 7) as usize;
                    assert(b / 8 == i - base);
                    assert(!bit_set(mask, b));
                    lemma_occurs_at_short_pattern(data@, first, second, i);
                }
                lemma_starts_before_skip(data@, pat, (base + done) as nat, index as nat);
                lemma_occurs_at_short_pattern(data@, first, second, index as int);
            }
            // Confirm the following byte where the pattern has two.
            if pattern_continues(data, index, second) {
                positions.push(index);
            }
            let ghost old_mask = mask;
            mask = mask & (mask - 1);
            proof {
                done = (byte_offset + 1) as usize;
                assert forall|b: usize| b < usize::BITS implies (#[trigger] bit_set(mask, b) <==> (b
                    % 8 == 7 && b / 8 >= done && data@[base + b / 8] == first)) by {
                    assert(bit_set(mask, b) <==> (bit_set(old_mask, b) && b != t));
                    if b < t {
                        assert(!bit_set(old_mask, b));
                    }
                }
            }
        }
        proof {
            lemma_zero_has_no_bits();
            assert forall|i: int| base + done <= i < base + WORD_BYTES implies !#[trigger] occurs_at(
                data@,
                pat,
                i,
            ) by {
                let b = ((i - base) * 8 + 7) as usize;
                assert(b / 8 == i - base);
                assert(!bit_set(mask, b));
                lemma_occurs_at_short_pattern(data@, first, second, i);
            }
            lemma_starts_before_skip(data@, pat, (base + done) as nat, (base + WORD_BYTES) as nat);
        }
        base = base + WORD_BYTES;
    }
    // The bytes after the last whole word.
    let mut index = base;
    while index < len
        invariant
            len == data.len(),
            index <= len,
            pat == pattern_of(first, second),
            positions@ == starts_before(data@, pat, index as nat),
        decreases len - index,
    {
        proof {
            lemma_occurs_at_short_pattern(data@, first, second, index as int);
        }
        if data[index] == first && pattern_continues(data, index, second) {
            positions.push(index);
        }
        index = index + 1;
    }
    positions
}

} // verus!
