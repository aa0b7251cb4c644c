use byte_search::{simd_search, swar_search, zero_byte_mask, LANE_HIGH_BITS};

const PATTERN_A: u8 = 0xFF;
const PATTERN_B: u8 = 0xFE;

// Searches for the patterns above, one per pattern and per scan.
fn find_byte(data: &[u8]) -> Vec<usize> {
    swar_search(data, PATTERN_A, None)
}

fn find_pair(data: &[u8]) -> Vec<usize> {
    swar_search(data, PATTERN_A, Some(PATTERN_B))
}

fn find_zeros(data: &[u8]) -> Vec<usize> {
    swar_search(data, 0x00, None)
}

fn simd_find_byte(data: &[u8]) -> Vec<usize> {
    simd_search(data, PATTERN_A, None)
}

fn simd_find_pair(data: &[u8]) -> Vec<usize> {
    simd_search(data, PATTERN_A, Some(PATTERN_B))
}

fn simd_find_zeros(data: &[u8]) -> Vec<usize> {
    simd_search(data, 0x00, None)
}

// High bit of the highest byte lane in a `usize`.
const HIGHEST_LANE_BIT: usize = 1 << (usize::BITS - 1);

#[test]
fn detects_zero_byte_in_lowest_position() {
    // Only the lowest lane is zero.
    assert_eq!(zero_byte_mask(usize::MAX & !0xFF), 0x80);
}

#[test]
fn detects_zero_byte_in_highest_position() {
    // Only the highest lane is zero.
    assert_eq!(zero_byte_mask(usize::MAX >> 8), HIGHEST_LANE_BIT);
}

#[test]
fn detects_multiple_zero_bytes() {
    // Lowest and highest lanes zero.
    let value = (usize::MAX >> 8) & !0xFF;
    assert_eq!(zero_byte_mask(value), HIGHEST_LANE_BIT | 0x80);
}

#[test]
fn returns_zero_when_no_zero_bytes_present() {
    assert_eq!(zero_byte_mask(usize::MAX), 0);
}

#[test]
fn flags_all_lanes_for_all_zeroes() {
    assert_eq!(zero_byte_mask(0), LANE_HIGH_BITS);
}

#[test]
fn does_not_false_positive_adjacent_to_zero_byte() {
    // Lane 0 = 0x00, lane 1 = 0x01, rest 0xFF: only lane 0 flagged.
    let value = (usize::MAX & !0xFFFF) | 0x0100;
    assert_eq!(zero_byte_mask(value), 0x80);
}

#[test]
fn single_byte_search_within_one_chunk() {
    // Fits in a single word.
    let data = [
        PATTERN_A, 0x00, PATTERN_A, 0x01, 0x02, PATTERN_A, 0x03, 0x04,
    ];
    assert_eq!(find_byte(&data), vec![0, 2, 5]);
}

#[test]
fn single_byte_search_scans_remainder() {
    // Full word + a shorter tail holding matches.
    let mut data = vec![0u8; 8];
    data.extend_from_slice(&[PATTERN_A, 0x00, PATTERN_A]);
    assert_eq!(find_byte(&data), vec![8, 10]);
}

#[test]
fn single_byte_search_empty_input() {
    assert!(find_byte(&[]).is_empty());
}

#[test]
fn two_byte_search_basic() {
    let sequence = [
        PATTERN_A, PATTERN_B, 0x00, PATTERN_A, 0x00, PATTERN_A, PATTERN_B, PATTERN_A,
        PATTERN_B, PATTERN_A,
    ];
    assert_eq!(find_pair(&sequence), vec![0, 5, 7]);
}

#[test]
fn two_byte_search_across_chunk_boundary() {
    // First byte ends one word; second byte starts the tail.
    let sequence = [
        0x00, 0x00, 0x00, 0x00, 0x00, 0x00, 0x00, PATTERN_A, PATTERN_B, 0xAA,
    ];
    assert_eq!(find_pair(&sequence), vec![7]);
}

#[test]
fn two_byte_search_first_byte_without_second() {
    // A trailing first byte with nothing after it must not match.
    let sequence = [PATTERN_A, 0x00, PATTERN_A];
    assert!(find_pair(&sequence).is_empty());
}

#[test]
fn two_byte_search_in_remainder() {
    let mut data = vec![0u8; 8];
    data.extend_from_slice(&[PATTERN_A, PATTERN_B, 0x00]);
    assert_eq!(find_pair(&data), vec![8]);
}

#[test]
fn generated_with_visibility_qualifier() {
    assert_eq!(find_zeros(&[1, 0, 2, 0, 0]), vec![1, 3, 4]);
}

#[test]
fn simd_single_byte_search_within_one_vector() {
    let data = [
        PATTERN_A, 0x00, PATTERN_A, 0x01, 0x02, PATTERN_A, 0x03, 0x04,
    ];
    assert_eq!(simd_find_byte(&data), vec![0, 2, 5]);
}

#[test]
fn simd_single_byte_search_scans_remainder() {
    // Full vector + a shorter tail holding matches.
    let mut data = vec![0u8; 16];
    data.extend_from_slice(&[PATTERN_A, 0x00, PATTERN_A]);
    assert_eq!(simd_find_byte(&data), vec![16, 18]);
}

#[test]
fn simd_single_byte_search_empty_input() {
    assert!(simd_find_byte(&[]).is_empty());
}

#[test]
fn simd_two_byte_search_basic() {
    let sequence = [
        PATTERN_A, PATTERN_B, 0x00, PATTERN_A, 0x00, PATTERN_A, PATTERN_B, PATTERN_A,
        PATTERN_B, PATTERN_A,
    ];
    assert_eq!(simd_find_pair(&sequence), vec![0, 5, 7]);
}

#[test]
fn simd_two_byte_search_across_vector_boundary() {
    // First byte ends one vector; second byte starts the tail.
    let mut data = vec![0u8; 15];
    data.push(PATTERN_A);
    data.push(PATTERN_B);
    data.push(0xAA);
    assert_eq!(simd_find_pair(&data), vec![15]);
}

#[test]
fn simd_two_byte_search_first_byte_without_second() {
    let sequence = [PATTERN_A, 0x00, PATTERN_A];
    assert!(simd_find_pair(&sequence).is_empty());
}

#[test]
fn simd_generated_with_visibility_qualifier() {
    assert_eq!(simd_find_zeros(&[1, 0, 2, 0, 0]), vec![1, 3, 4]);
}

#[test]
fn simd_and_swar_agree_over_many_vectors() {
    // Both scans must agree over many words/vectors with scattered markers.
    let mut data = vec![0u8; 500];
    let mut x: u32 = 0x9E37_79B9;
    for byte in &mut data {
        x = x.wrapping_mul(1664525).wrapping_add(1013904223);
        *byte = (x >> 16) as u8;
    }
    for i in (0..data.len().saturating_sub(1)).step_by(37) {
        data[i] = PATTERN_A;
        data[i + 1] = PATTERN_B;
    }

    assert_eq!(simd_find_byte(&data), find_byte(&data));
    assert_eq!(simd_find_pair(&data), find_pair(&data));
}
