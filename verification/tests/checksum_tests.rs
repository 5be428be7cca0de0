use checksum::{
    add_assign_with_carry_u32, checksum_chunks_exact, checksum_chunks_exact_no_bigchunk,
    checksum_chunks_ne_sep, checksum_chunks_ne_u16, checksum_chunks_ne_u16_unroll,
    checksum_indexed, checksum_original, checksum_sliced_ne, checksum_sliced_ne_sep,
    checksum_sliced_ne_sep_unroll, checksum_sliced_ne_u16, checksum_sliced_ne_u16_unroll,
    checksum_wide, propagate_carries,
};
use wide::u32x4;

/// compare all checksum implementations against original
/// for given data
fn check_checksums(data: &[u8]) {
    let res_orig = checksum_original(data);

    assert_eq!(checksum_wide(data), res_orig);
    assert_eq!(checksum_indexed(data), res_orig);
    assert_eq!(checksum_chunks_exact_no_bigchunk(data), res_orig);
    assert_eq!(checksum_chunks_exact(data), res_orig);
    assert_eq!(checksum_sliced_ne(data), res_orig);
    assert_eq!(checksum_sliced_ne_sep(data), res_orig);
    assert_eq!(checksum_sliced_ne_sep_unroll(data), res_orig);
    assert_eq!(checksum_chunks_ne_sep(data), res_orig);
    assert_eq!(checksum_sliced_ne_u16(data), res_orig);
    assert_eq!(checksum_sliced_ne_u16_unroll(data), res_orig);
    assert_eq!(checksum_chunks_ne_u16(data), res_orig);
    assert_eq!(checksum_chunks_ne_u16_unroll(data), res_orig);
    assert_eq!(checksum_wide(data), res_orig);
}

/// Every implementation, in one list.
fn all_results(data: &[u8]) -> Vec<u16> {
    vec![
        checksum_original(data),
        checksum_indexed(data),
        checksum_chunks_exact_no_bigchunk(data),
        checksum_chunks_exact(data),
        checksum_sliced_ne(data),
        checksum_sliced_ne_sep(data),
        checksum_sliced_ne_sep_unroll(data),
        checksum_chunks_ne_sep(data),
        checksum_sliced_ne_u16(data),
        checksum_sliced_ne_u16_unroll(data),
        checksum_chunks_ne_u16(data),
        checksum_chunks_ne_u16_unroll(data),
        checksum_wide(data),
    ]
}

/// A plain reading of RFC 1071: sum the big-endian words in 64 bits, then
/// fold with end-around carry.
fn reference_sum(data: &[u8]) -> u16 {
    let mut sum: u64 = 0;
    let mut i = 0;
    while i + 1 < data.len() {
        sum += ((data[i] as u64) << 8) | data[i + 1] as u64;
        i += 2;
    }
    if i < data.len() {
        sum += (data[i] as u64) << 8;
    }
    while sum > 0xffff {
        sum = (sum >> 16) + (sum & 0xffff);
    }
    sum as u16
}

/// Deterministic pseudo-random bytes.
fn pseudo_random(len: usize, seed: u32) -> Vec<u8> {
    let mut state = seed;
    let mut out = Vec::with_capacity(len);
    for _ in 0..len {
        state = state.wrapping_mul(1_664_525).wrapping_add(1_013_904_223);
        out.push((state >> 24) as u8);
    }
    out
}

#[test]
fn test_32_1() {
    let data = [254; 32];
    check_checksums(&data);
}

#[test]
fn test_33_1() {
    let data = [254; 33];
    check_checksums(&data);
}

#[test]
fn test_35_1() {
    let data = [254; 35];
    check_checksums(&data);
}

#[test]
fn test_37_1() {
    let data = [254; 37];
    check_checksums(&data);
}

#[test]
fn test_1024() {
    let data = [254; 1024];
    check_checksums(&data);
}

#[test]
fn test_simd_ne() {
    let a = u32x4::splat(2);
    let b = u32x4::from([0, 2, 2, 4]);

    let res = a.simd_ne(b);
    let expect = u32x4::from([u32::MAX, 0, 0, u32::MAX]);

    assert_eq!(res, expect);
}

#[test]
fn rfc1071_example_sum() {
    // RFC 1071, section 3: the words 0001 f203 f4f5 f6f7 sum to ddf2.
    let data = [0x00, 0x01, 0xf2, 0x03, 0xf4, 0xf5, 0xf6, 0xf7];
    for sum in all_results(&data) {
        assert_eq!(sum, 0xddf2);
    }
}

#[test]
fn empty_input_sums_to_zero() {
    for sum in all_results(&[]) {
        assert_eq!(sum, 0);
    }
}

#[test]
fn odd_byte_is_padded_on_the_right() {
    for sum in all_results(&[0xab]) {
        assert_eq!(sum, 0xab00);
    }
    for sum in all_results(&[0x12, 0x34, 0xab]) {
        assert_eq!(sum, 0xbd34);
    }
}

#[test]
fn all_ones_sums_to_negative_zero() {
    // ffff + ffff = 1fffe, folded to ffff: never zero for nonzero data
    for sum in all_results(&[0xff, 0xff, 0xff, 0xff]) {
        assert_eq!(sum, 0xffff);
    }
    for sum in all_results(&[0xff; 34]) {
        assert_eq!(sum, 0xffff);
    }
    // an odd trailing ff byte pads to the word ff00
    for sum in all_results(&[0xff; 35]) {
        assert_eq!(sum, 0xff00);
    }
}

#[test]
fn zero_data_sums_to_zero() {
    for sum in all_results(&[0u8; 77]) {
        assert_eq!(sum, 0);
    }
}

#[test]
fn every_length_matches_reference() {
    for len in 0..140usize {
        let data = pseudo_random(len, len as u32 + 7);
        let expect = reference_sum(&data);
        for sum in all_results(&data) {
            assert_eq!(sum, expect, "length {}", len);
        }
    }
}

#[test]
fn many_carries_match_reference() {
    // 70000 bytes of ff: the 32-bit accumulators carry many times, while
    // the plain 16-bit sums still fit in 32 bits
    let data = vec![0xffu8; 70001];
    let expect = reference_sum(&data);
    assert_eq!(expect, 0xff00);
    for sum in all_results(&data) {
        assert_eq!(sum, expect);
    }
    let data = pseudo_random(65_000, 99);
    let expect = reference_sum(&data);
    for sum in all_results(&data) {
        assert_eq!(sum, expect);
    }
}

#[test]
fn byte_order_independence_on_values() {
    // swapping the bytes of every word swaps the bytes of the sum
    let data = pseudo_random(64, 3);
    let mut swapped = data.clone();
    for pair in swapped.chunks_exact_mut(2) {
        pair.swap(0, 1);
    }
    assert_eq!(checksum_original(&swapped), checksum_original(&data).swap_bytes());
}

#[test]
fn concat_law_on_values() {
    let a = pseudo_random(40, 5);
    let b = pseudo_random(23, 6);
    let mut ab = a.clone();
    ab.extend_from_slice(&b);
    let folded = propagate_carries(checksum_original(&a) as u32 + checksum_original(&b) as u32);
    assert_eq!(checksum_original(&ab), folded);
}

#[test]
fn swap_blocks_law_on_values() {
    let a = pseudo_random(18, 8);
    let b = pseudo_random(30, 9);
    let mut ab = a.clone();
    ab.extend_from_slice(&b);
    let mut ba = b.clone();
    ba.extend_from_slice(&a);
    assert_eq!(checksum_indexed(&ab), checksum_indexed(&ba));
}

#[test]
fn propagate_carries_values() {
    assert_eq!(propagate_carries(0), 0);
    assert_eq!(propagate_carries(0x1234), 0x1234);
    assert_eq!(propagate_carries(0x0001_ffff), 1);
    assert_eq!(propagate_carries(0x0002_0003), 5);
    assert_eq!(propagate_carries(0xffff_ffff), 0xffff);
    assert_eq!(propagate_carries(0x0001_fffe), 0xffff);
}

#[test]
fn add_with_carry_values() {
    let mut a: u32 = 1;
    add_assign_with_carry_u32(&mut a, 2);
    assert_eq!(a, 3);
    let mut a: u32 = 0xffff_ffff;
    add_assign_with_carry_u32(&mut a, 2);
    assert_eq!(a, 2);
    let mut a: u32 = 0xffff_ffff;
    add_assign_with_carry_u32(&mut a, 0xffff_ffff);
    assert_eq!(a, 0xffff_ffff);
}
