//! The checksum implementations. Each returns the RFC 1071 Internet checksum of
//! its input without the final complement, `internet_sum(data@)`.
use crate::bytes::{
    ne_read_u16, ne_read_u32, ne_to_network, network_read_u16, u16_from_be_bytes,
    u16_from_ne_bytes,
};
use crate::fold::{add_assign_with_carry_u32, overflowing_add_u32, propagate_carries};
use crate::lanes::{
    lanes_ne_mask, lanes_saturating_add, lanes_wrapping_add, lanes_wrapping_sub, read_lanes,
};
use crate::lemmas::{
    lemma_accumulate, lemma_chunk16_equiv, lemma_end_around_add, lemma_equiv_add,
    lemma_equiv_carry_weight, lemma_equiv_trans, lemma_even_prefix_step,
    lemma_fold_respects_equiv, lemma_native_fold, lemma_word32_equiv, lemma_word_sum_from,
    lemma_word_sum_split, lemma_word_sum_step4,
};
use crate::model::{
    end_around_add, even_prefix, internet_sum, ones_equiv, strided_word32_sum, word16, word32,
    word_sum,
};
use vstd::endian::{endianness, Endian};
use vstd::prelude::*;
use vstd::slice::slice_subrange;

verus! {

/// The number of bytes summed per outer iteration by the chunked variants.
const BIG_CHUNK: usize = 32;

/// The number of bytes in a native 32-bit read.
const NE_CHUNK: usize = 4;

/// The number of bytes summed per iteration by the two-accumulator variants.
const UNROLLED_CHUNK: usize = 8;

/// The number of bytes in one four-lane vector of 32-bit words.
const WIDE_CHUNK: usize = 16;

/// The number of bytes in a 16-bit word.
const WORD_SIZE: usize = 2;

/// The contribution of an odd trailing byte: the byte in the high half of a word.
fn high_byte_word(value: u8) -> (word: u32)
    ensures
        word == word16(value, 0, Endian::Big),
{
    proof {
        assert((value as u32) << 8 == (value as u32) * 256) by (bit_vector);
    }
    (value as u32) << 8
}

/// Compute an RFC 1071 compliant checksum (without the final complement).
///
/// Sums the big-endian 16-bit words in 32-byte chunks, then the remaining
/// words, then an odd trailing byte, in a 32-bit accumulator that never
/// overflows on the inputs admitted.
pub fn checksum_original(data: &[u8]) -> (sum: u16)
    requires
        word_sum(data@, Endian::Big) <= u32::MAX,
    ensures
        sum == internet_sum(data@),
{
    let ghost total = word_sum(data@, Endian::Big);
    let mut data = data;
    let mut accum: u32 = 0;

    // For each 32-byte chunk...
    while data.len() >= BIG_CHUNK
        invariant
            accum + word_sum(data@, Endian::Big) == total,
            total <= u32::MAX,
        decreases data.len(),
    {
        let ghost rest = data@.subrange(BIG_CHUNK as int, data@.len() as int);
        proof {
            lemma_word_sum_split(data@, BIG_CHUNK as int, Endian::Big);
        }
        let mut d = slice_subrange(data, 0, BIG_CHUNK);
        // ... take by 2 bytes and sum them.
        while d.len() >= 2
            invariant
                accum + word_sum(d@, Endian::Big) + word_sum(rest, Endian::Big) == total,
                total <= u32::MAX,
                d@.len() % 2 == 0,
            decreases d.len(),
        {
            accum += network_read_u16(d) as u32;
            d = slice_subrange(d, 2, d.len());
        }
        data = slice_subrange(data, BIG_CHUNK, data.len());
    }

    // Sum the rest that does not fit the last 32-byte chunk,
    // taking by 2 bytes.
    while data.len() >= 2
        invariant
            accum + word_sum(data@, Endian::Big) == total,
            total <= u32::MAX,
        decreases data.len(),
    {
        accum += network_read_u16(data) as u32;
        data = slice_subrange(data, 2, data.len());
    }

    // Add the last remaining odd byte, if any.
    if let Some(value) = data.first() {
        accum += high_byte_word(*value);
    }
    propagate_carries(accum)
}

/// Compute an RFC 1071 compliant checksum (without the final complement), by
/// indexing.
///
/// Sums the big-endian 16-bit words in 32-byte chunks, then the remaining
/// words, then an odd trailing byte, in a 32-bit accumulator that never
/// overflows on the inputs admitted.
pub fn checksum_indexed(data: &[u8]) -> (sum: u16)
    requires
        word_sum(data@, Endian::Big) <= u32::MAX,
    ensures
        sum == internet_sum(data@),
{
    let ghost total = word_sum(data@, Endian::Big);
    let mut data = data;
    let mut accum: u32 = 0;

    // For each 32-byte chunk...
    while data.len() >= BIG_CHUNK
        invariant
            accum + word_sum(data@, Endian::Big) == total,
            total <= u32::MAX,
        decreases data.len(),
    {
        let chunk = slice_subrange(data, 0, BIG_CHUNK);
        let ghost rest = data@.subrange(BIG_CHUNK as int, data@.len() as int);
        proof {
            lemma_word_sum_split(data@, BIG_CHUNK as int, Endian::Big);
            assert(chunk@.subrange(0, BIG_CHUNK as int) =~= chunk@);
        }
        let mut i: usize = 0;
        // ... take by 2 bytes and sum them.
        while i + 1 < BIG_CHUNK
            invariant
                chunk@.len() == BIG_CHUNK,
                i <= BIG_CHUNK,
                i % 2 == 0,
                accum + word_sum(chunk@.subrange(i as int, BIG_CHUNK as int), Endian::Big)
                    + word_sum(rest, Endian::Big) == total,
                total <= u32::MAX,
            decreases BIG_CHUNK - i,
        {
            proof {
                lemma_word_sum_from(chunk@, i as int, Endian::Big);
            }
            accum += u16_from_be_bytes([chunk[i], chunk[i + 1]]) as u32;
            i += 2;
        }
        proof {
            lemma_word_sum_from(chunk@, i as int, Endian::Big);
        }
        data = slice_subrange(data, BIG_CHUNK, data.len());
    }

    // Sum the rest that does not fit the last 32-byte chunk,
    // taking by 2 bytes.
    proof {
        assert(data@.subrange(0, data@.len() as int) =~= data@);
    }
    let mut i: usize = 0;
    while i + 1 < data.len()
        invariant
            i <= data@.len(),
            i % 2 == 0,
            accum + word_sum(data@.subrange(i as int, data@.len() as int), Endian::Big) == total,
            total <= u32::MAX,
        decreases data.len() - i,
    {
        proof {
            lemma_word_sum_from(data@, i as int, Endian::Big);
        }
        accum += u16_from_be_bytes([data[i], data[i + 1]]) as u32;
        i += 2;
    }
    proof {
        lemma_word_sum_from(data@, i as int, Endian::Big);
    }

    // Add the last remaining odd byte, if any.
    if i < data.len() {
        accum += high_byte_word(data[i]);
    }
    propagate_carries(accum)
}

/// Compute an RFC 1071 compliant checksum (without the final complement) over
/// exact 2-byte chunks.
///
/// Sums the big-endian 16-bit words, then an odd trailing byte, in a 32-bit
/// accumulator that never overflows on the inputs admitted.
pub fn checksum_chunks_exact_no_bigchunk(data: &[u8]) -> (sum: u16)
    requires
        word_sum(data@, Endian::Big) <= u32::MAX,
    ensures
        sum == internet_sum(data@),
{
    let ghost total = word_sum(data@, Endian::Big);
    let mut accum: u32 = 0;
    proof {
        assert(data@.subrange(0, data@.len() as int) =~= data@);
    }

    // ... take by 2 bytes and sum them.
    let len = data.len();
    let pairs = len / WORD_SIZE;
    let mut k: usize = 0;
    while k < pairs
        invariant
            k <= pairs,
            len == data@.len(),
            pairs == data@.len() / 2,
            2 * pairs <= data@.len(),
            accum + word_sum(data@.subrange(2 * k, data@.len() as int), Endian::Big) == total,
            total <= u32::MAX,
        decreases pairs - k,
    {
        proof {
            lemma_word_sum_from(data@, 2 * k, Endian::Big);
        }
        let pair = slice_subrange(data, 2 * k, 2 * k + 2);
        accum += u16_from_be_bytes([pair[0], pair[1]]) as u32;
        k += 1;
    }

    // Add the last remaining odd byte, if any.
    let remainder = slice_subrange(data, 2 * pairs, data.len());
    proof {
        lemma_word_sum_from(data@, 2 * pairs, Endian::Big);
    }
    if let Some(byte) = remainder.first() {
        accum += high_byte_word(*byte);
    }
    propagate_carries(accum)
}

/// Compute an RFC 1071 compliant checksum (without the final complement) over
/// exact 32-byte chunks, each taken as exact 2-byte chunks.
///
/// Sums the big-endian 16-bit words of the 32-byte chunks, then those of the
/// remainder, then an odd trailing byte, in a 32-bit accumulator that never
/// overflows on the inputs admitted.
pub fn checksum_chunks_exact(data: &[u8]) -> (sum: u16)
    requires
        word_sum(data@, Endian::Big) <= u32::MAX,
    ensures
        sum == internet_sum(data@),
{
    let ghost total = word_sum(data@, Endian::Big);
    let mut accum: u32 = 0;
    proof {
        assert(data@.subrange(0, data@.len() as int) =~= data@);
    }

    // For each 32-byte chunk...
    let len = data.len();
    let chunks = len / BIG_CHUNK;
    let mut c: usize = 0;
    while c < chunks
        invariant
            c <= chunks,
            len == data@.len(),
            chunks == data@.len() / 32,
            32 * chunks <= data@.len(),
            accum + word_sum(data@.subrange(32 * c, data@.len() as int), Endian::Big) == total,
            total <= u32::MAX,
        decreases chunks - c,
    {
        let chunk = slice_subrange(data, BIG_CHUNK * c, BIG_CHUNK * c + BIG_CHUNK);
        let ghost rest = data@.subrange(32 * c + 32, data@.len() as int);
        proof {
            let tail = data@.subrange(32 * c, data@.len() as int);
            lemma_word_sum_split(tail, 32, Endian::Big);
            assert(tail.subrange(0, 32) =~= chunk@);
            assert(tail.subrange(32, tail.len() as int) =~= rest);
            assert(chunk@.subrange(0, 32) =~= chunk@);
        }
        // ... take by 2 bytes and sum them.
        let mut p: usize = 0;
        while p < BIG_CHUNK / WORD_SIZE
            invariant
                p <= BIG_CHUNK / WORD_SIZE,
                chunk@.len() == 32,
                accum + word_sum(chunk@.subrange(2 * p, 32), Endian::Big) + word_sum(
                    rest,
                    Endian::Big,
                ) == total,
                total <= u32::MAX,
            decreases BIG_CHUNK / WORD_SIZE - p,
        {
            proof {
                lemma_word_sum_from(chunk@, 2 * p, Endian::Big);
            }
            let pair = slice_subrange(chunk, 2 * p, 2 * p + 2);
            accum += u16_from_be_bytes([pair[0], pair[1]]) as u32;
            p += 1;
        }
        proof {
            lemma_word_sum_from(chunk@, 32, Endian::Big);
        }
        c += 1;
    }

    // Sum the rest that does not fit the last 32-byte chunk,
    // taking by 2 bytes.
    let remainder = slice_subrange(data, BIG_CHUNK * chunks, data.len());
    proof {
        assert(remainder@.subrange(0, remainder@.len() as int) =~= remainder@);
    }
    let rem_len = remainder.len();
    let pairs = rem_len / WORD_SIZE;
    let mut k: usize = 0;
    while k < pairs
        invariant
            k <= pairs,
            rem_len == remainder@.len(),
            pairs == remainder@.len() / 2,
            2 * pairs <= remainder@.len(),
            accum + word_sum(remainder@.subrange(2 * k, remainder@.len() as int), Endian::Big)
                == total,
            total <= u32::MAX,
        decreases pairs - k,
    {
        proof {
            lemma_word_sum_from(remainder@, 2 * k, Endian::Big);
        }
        let pair = slice_subrange(remainder, 2 * k, 2 * k + 2);
        accum += u16_from_be_bytes([pair[0], pair[1]]) as u32;
        k += 1;
    }

    // Add the last remaining odd byte, if any.
    let odd = slice_subrange(remainder, 2 * pairs, remainder.len());
    proof {
        lemma_word_sum_from(remainder@, 2 * pairs, Endian::Big);
    }
    if let Some(byte) = odd.first() {
        accum += high_byte_word(*byte);
    }
    propagate_carries(accum)
}

/// Compute an RFC 1071 compliant checksum (without the final complement) from
/// native-endian reads.
///
/// Sums native-order 32-bit words, then 16-bit words, then an odd trailing
/// byte, with end-around carry, and puts the folded sum back into network
/// order.
pub fn checksum_sliced_ne(data: &[u8]) -> (sum: u16)
    ensures
        sum == internet_sum(data@),
{
    let ghost input = data@;
    let ghost order = endianness();
    let ghost total = word_sum(input, order);
    let ghost mut done: nat = 0;
    let mut data = data;
    let mut accum: u32 = 0;

    // Sum as much as possible in 4 byte chunks
    while data.len() >= NE_CHUNK
        invariant
            order == endianness(),
            done + word_sum(data@, order) == total,
            ones_equiv(accum as int, done as int),
        decreases data.len(),
    {
        let ghost old_accum = accum;
        let value = ne_read_u32(data);
        add_assign_with_carry_u32(&mut accum, value);
        proof {
            let d = data@;
            lemma_word_sum_step4(d, order);
            lemma_word32_equiv(d[0], d[1], d[2], d[3], order);
            let words = word16(d[0], d[1], order) + word16(d[2], d[3], order);
            lemma_accumulate(old_accum as int, accum as int, value as int, done as int, words as int);
            done = done + words;
        }
        data = slice_subrange(data, NE_CHUNK, data.len());
    }

    // Sum the rest that does not fit the last 4-byte chunk,
    // taking by 2 bytes.
    while data.len() >= 2
        invariant
            order == endianness(),
            done + word_sum(data@, order) == total,
            ones_equiv(accum as int, done as int),
        decreases data.len(),
    {
        let ghost old_accum = accum;
        let value = ne_read_u16(data);
        add_assign_with_carry_u32(&mut accum, value as u32);
        proof {
            lemma_accumulate(old_accum as int, accum as int, value as int, done as int, value as int);
            done = done + value as nat;
        }
        data = slice_subrange(data, 2, data.len());
    }

    // Add the last remaining odd byte, if any.
    if let Some(value) = data.first() {
        let ghost old_accum = accum;
        let word = ne_read_u16(&[*value, 0]);
        add_assign_with_carry_u32(&mut accum, word as u32);
        proof {
            lemma_accumulate(old_accum as int, accum as int, word as int, done as int, word as int);
            done = done + word as nat;
        }
    }
    proof {
        assert(done == total);
        lemma_fold_respects_equiv(accum as nat, total);
        lemma_native_fold(input, order);
    }

    let val = propagate_carries(accum);
    ne_to_network(val)
}

/// Compute an RFC 1071 compliant checksum (without the final complement) from
/// native-endian reads, counting the carries of the 32-bit sum separately.
///
/// The carry count is a `u32`; inputs whose native 32-bit words sum to 2^64 or
/// more would overflow it, and are excluded.
pub fn checksum_sliced_ne_sep(data: &[u8]) -> (sum: u16)
    requires
        strided_word32_sum(data@, 4, 0, endianness()) < 0x1_0000_0000_0000_0000,
    ensures
        sum == internet_sum(data@),
{
    let ghost input = data@;
    let ghost order = endianness();
    let ghost total = word_sum(input, order);
    let ghost total32 = strided_word32_sum(input, 4, 0, order);
    let ghost mut done: nat = 0;
    let ghost mut done32: nat = 0;
    let mut data = data;
    let mut accum: u32 = 0;
    let mut accum_carry: u32 = 0;

    // Sum as much as possible in 4 byte chunks
    while data.len() >= NE_CHUNK
        invariant
            order == endianness(),
            done + word_sum(data@, order) == total,
            done32 + strided_word32_sum(data@, 4, 0, order) == total32,
            total32 < 0x1_0000_0000_0000_0000,
            accum + accum_carry * 0x1_0000_0000 == done32,
            ones_equiv(done32 as int, done as int),
        decreases data.len(),
    {
        let val = ne_read_u32(data);
        proof {
            let d = data@;
            lemma_word_sum_step4(d, order);
            lemma_word32_equiv(d[0], d[1], d[2], d[3], order);
            let words = word16(d[0], d[1], order) + word16(d[2], d[3], order);
            lemma_equiv_add(done32 as int, val as int, done as int, words as int);
            done = done + words;
            done32 = done32 + val as nat;
        }
        let (sum, carry) = overflowing_add_u32(accum, val);
        accum = sum;
        accum_carry += carry as u32;
        data = slice_subrange(data, NE_CHUNK, data.len());
    }

    let ghost before = accum;
    add_assign_with_carry_u32(&mut accum, accum_carry);
    proof {
        lemma_equiv_carry_weight(before as int, accum_carry as int);
        lemma_equiv_trans(accum as int, before + accum_carry, done32 as int);
        lemma_equiv_trans(accum as int, done32 as int, done as int);
    }

    // Sum the rest that does not fit the last 4-byte chunk,
    // taking by 2 bytes.
    assert(data@.len() < 4);
    assert(done + word_sum(data@, order) == total);
    if data.len() >= 2 {
        let ghost old_accum = accum;
        let value = ne_read_u16(data);
        add_assign_with_carry_u32(&mut accum, value as u32);
        proof {
            lemma_accumulate(old_accum as int, accum as int, value as int, done as int, value as int);
            done = done + value as nat;
        }
        data = slice_subrange(data, 2, data.len());
    }
    assert(data@.len() < 2);
    assert(done + word_sum(data@, order) == total);

    // Add the last remaining odd byte, if any.
    if let Some(value) = data.first() {
        let ghost old_accum = accum;
        let word = ne_read_u16(&[*value, 0]);
        add_assign_with_carry_u32(&mut accum, word as u32);
        proof {
            lemma_accumulate(old_accum as int, accum as int, word as int, done as int, word as int);
            done = done + word as nat;
        }
    }
    proof {
        assert(done == total);
        lemma_fold_respects_equiv(accum as nat, total);
        lemma_native_fold(input, order);
    }

    let val = propagate_carries(accum);
    ne_to_network(val)
}

/// Compute an RFC 1071 compliant checksum (without the final complement) from
/// native-endian reads, in two interleaved 32-bit sums with separate carry
/// counts.
///
/// Each carry count is a `u32`; inputs where the native 32-bit words at offset 0
/// or at offset 4 of the 8-byte chunks sum to 2^64 or more would overflow one,
/// and are excluded.
pub fn checksum_sliced_ne_sep_unroll(data: &[u8]) -> (sum: u16)
    requires
        strided_word32_sum(data@, 8, 0, endianness()) < 0x1_0000_0000_0000_0000,
        strided_word32_sum(data@, 8, 4, endianness()) < 0x1_0000_0000_0000_0000,
    ensures
        sum == internet_sum(data@),
{
    let ghost input = data@;
    let ghost order = endianness();
    let ghost total = word_sum(input, order);
    let ghost total_a = strided_word32_sum(input, 8, 0, order);
    let ghost total_b = strided_word32_sum(input, 8, 4, order);
    let ghost mut done: nat = 0;
    let ghost mut done_a: nat = 0;
    let ghost mut done_b: nat = 0;
    let mut data = data;
    let mut accum: u32 = 0;
    let mut accum2: u32 = 0;
    let mut accum_carry: u32 = 0;
    let mut accum_carry2: u32 = 0;

    // Sum as much as possible in 8 byte chunks
    while data.len() >= UNROLLED_CHUNK
        invariant
            order == endianness(),
            done + word_sum(data@, order) == total,
            done_a + strided_word32_sum(data@, 8, 0, order) == total_a,
            done_b + strided_word32_sum(data@, 8, 4, order) == total_b,
            total_a < 0x1_0000_0000_0000_0000,
            total_b < 0x1_0000_0000_0000_0000,
            accum + accum_carry * 0x1_0000_0000 == done_a,
            accum2 + accum_carry2 * 0x1_0000_0000 == done_b,
            ones_equiv((done_a + done_b) as int, done as int),
        decreases data.len(),
    {
        let val = ne_read_u32(data);
        let val2 = ne_read_u32(slice_subrange(data, 4, data.len()));
        proof {
            let d = data@;
            let second = d.subrange(4, d.len() as int);
            lemma_word_sum_step4(d, order);
            lemma_word_sum_step4(second, order);
            assert(second.subrange(4, second.len() as int) =~= d.subrange(8, d.len() as int));
            lemma_word32_equiv(d[0], d[1], d[2], d[3], order);
            lemma_word32_equiv(d[4], d[5], d[6], d[7], order);
            let first = word16(d[0], d[1], order) + word16(d[2], d[3], order);
            let second_words = word16(d[4], d[5], order) + word16(d[6], d[7], order);
            lemma_equiv_add(val as int, val2 as int, first as int, second_words as int);
            lemma_equiv_add(
                (done_a + done_b) as int,
                val + val2,
                done as int,
                (first + second_words) as int,
            );
            done = done + first + second_words;
            done_a = done_a + val as nat;
            done_b = done_b + val2 as nat;
        }
        let (sum, carry) = overflowing_add_u32(accum, val);
        accum = sum;
        accum_carry += carry as u32;

        let (sum2, carry2) = overflowing_add_u32(accum2, val2);
        accum2 = sum2;
        accum_carry2 += carry2 as u32;

        data = slice_subrange(data, UNROLLED_CHUNK, data.len());
    }

    let ghost before2 = accum2;
    add_assign_with_carry_u32(&mut accum2, accum_carry2);
    let ghost before = accum;
    add_assign_with_carry_u32(&mut accum, accum_carry);
    let ghost before_merge = accum;
    add_assign_with_carry_u32(&mut accum, accum2);
    proof {
        lemma_equiv_carry_weight(before2 as int, accum_carry2 as int);
        lemma_equiv_trans(accum2 as int, before2 + accum_carry2, done_b as int);
        lemma_equiv_carry_weight(before as int, accum_carry as int);
        lemma_equiv_trans(before_merge as int, before + accum_carry, done_a as int);
        lemma_accumulate(
            before_merge as int,
            accum as int,
            accum2 as int,
            done_a as int,
            done_b as int,
        );
        lemma_equiv_trans(accum as int, (done_a + done_b) as int, done as int);
    }

    // Sum the rest that does not fit the last 8-byte chunk,
    // taking by 2 bytes.
    while data.len() >= 2
        invariant
            order == endianness(),
            done + word_sum(data@, order) == total,
            ones_equiv(accum as int, done as int),
        decreases data.len(),
    {
        let ghost old_accum = accum;
        let value = ne_read_u16(data);
        add_assign_with_carry_u32(&mut accum, value as u32);
        proof {
            lemma_accumulate(old_accum as int, accum as int, value as int, done as int, value as int);
            done = done + value as nat;
        }
        data = slice_subrange(data, 2, data.len());
    }

    // Add the last remaining odd byte, if any.
    if let Some(value) = data.first() {
        let ghost old_accum = accum;
        let word = ne_read_u16(&[*value, 0]);
        add_assign_with_carry_u32(&mut accum, word as u32);
        proof {
            lemma_accumulate(old_accum as int, accum as int, word as int, done as int, word as int);
            done = done + word as nat;
        }
    }
    proof {
        assert(done == total);
        lemma_fold_respects_equiv(accum as nat, total);
        lemma_native_fold(input, order);
    }

    let val = propagate_carries(accum);
    ne_to_network(val)
}

/// Compute an RFC 1071 compliant checksum (without the final complement) from
/// native-endian reads of exact 4-byte chunks, counting the carries of the
/// 32-bit sum separately.
///
/// The carry count is a `u32`; inputs whose native 32-bit words sum to 2^64 or
/// more would overflow it, and are excluded.
pub fn checksum_chunks_ne_sep(data: &[u8]) -> (sum: u16)
    requires
        strided_word32_sum(data@, 4, 0, endianness()) < 0x1_0000_0000_0000_0000,
    ensures
        sum == internet_sum(data@),
{
    let ghost input = data@;
    let ghost order = endianness();
    let ghost total = word_sum(input, order);
    let ghost total32 = strided_word32_sum(input, 4, 0, order);
    let ghost mut done: nat = 0;
    let ghost mut done32: nat = 0;
    let mut accum: u32 = 0;
    let mut accum_carry: u32 = 0;
    proof {
        assert(input.subrange(0, input.len() as int) =~= input);
    }

    // Sum as much as possible in 4 byte chunks
    let len = data.len();
    let chunks = len / NE_CHUNK;
    let mut c: usize = 0;
    while c < chunks
        invariant
            order == endianness(),
            len == input.len(),
            data@ == input,
            chunks == len / 4,
            4 * chunks <= len,
            c <= chunks,
            done + word_sum(input.subrange(4 * c, len as int), order) == total,
            done32 + strided_word32_sum(input.subrange(4 * c, len as int), 4, 0, order) == total32,
            total32 < 0x1_0000_0000_0000_0000,
            accum + accum_carry * 0x1_0000_0000 == done32,
            ones_equiv(done32 as int, done as int),
        decreases chunks - c,
    {
        let chunk = slice_subrange(data, NE_CHUNK * c, NE_CHUNK * c + NE_CHUNK);
        let val = ne_read_u32(chunk);
        proof {
            let d = input.subrange(4 * c, len as int);
            assert(d.subrange(4, d.len() as int) =~= input.subrange(4 * c + 4, len as int));
            lemma_word_sum_step4(d, order);
            lemma_word32_equiv(d[0], d[1], d[2], d[3], order);
            let words = word16(d[0], d[1], order) + word16(d[2], d[3], order);
            lemma_equiv_add(done32 as int, val as int, done as int, words as int);
            done = done + words;
            done32 = done32 + val as nat;
        }
        let (sum, carry) = overflowing_add_u32(accum, val);
        accum = sum;
        accum_carry += carry as u32;
        c += 1;
    }
    let mut data = slice_subrange(data, NE_CHUNK * chunks, len);

    let ghost before = accum;
    add_assign_with_carry_u32(&mut accum, accum_carry);
    proof {
        lemma_equiv_carry_weight(before as int, accum_carry as int);
        lemma_equiv_trans(accum as int, before + accum_carry, done32 as int);
        lemma_equiv_trans(accum as int, done32 as int, done as int);
    }

    // Sum the rest that does not fit the last 4-byte chunk,
    // taking by 2 bytes.
    assert(data@.len() < 4);
    assert(done + word_sum(data@, order) == total);
    if data.len() >= 2 {
        let ghost old_accum = accum;
        let value = ne_read_u16(data);
        add_assign_with_carry_u32(&mut accum, value as u32);
        proof {
            lemma_accumulate(old_accum as int, accum as int, value as int, done as int, value as int);
            done = done + value as nat;
        }
        data = slice_subrange(data, 2, data.len());
    }
    assert(data@.len() < 2);
    assert(done + word_sum(data@, order) == total);

    // Add the last remaining odd byte, if any.
    if let Some(value) = data.first() {
        let ghost old_accum = accum;
        let word = ne_read_u16(&[*value, 0]);
        add_assign_with_carry_u32(&mut accum, word as u32);
        proof {
            lemma_accumulate(old_accum as int, accum as int, word as int, done as int, word as int);
            done = done + word as nat;
        }
    }
    proof {
        assert(done == total);
        lemma_fold_respects_equiv(accum as nat, total);
        lemma_native_fold(input, order);
    }

    let val = propagate_carries(accum);
    ne_to_network(val)
}

/// Compute an RFC 1071 compliant checksum (without the final complement) from
/// native-endian 16-bit reads.
///
/// Sums the native-order 16-bit words in a 32-bit accumulator without carry
/// handling, so inputs whose words (an odd trailing byte aside) sum past
/// `u32::MAX` are excluded; the odd trailing byte is added with end-around
/// carry.
pub fn checksum_sliced_ne_u16(data: &[u8]) -> (sum: u16)
    requires
        word_sum(even_prefix(data@), endianness()) <= u32::MAX,
    ensures
        sum == internet_sum(data@),
{
    let ghost input = data@;
    let ghost order = endianness();
    let ghost total = word_sum(input, order);
    let ghost total_pairs = word_sum(even_prefix(input), order);
    let mut data = data;
    let mut accum: u32 = 0;

    // Sum as much as possible in 2 byte chunks
    while data.len() >= WORD_SIZE
        invariant
            order == endianness(),
            accum + word_sum(data@, order) == total,
            accum + word_sum(even_prefix(data@), order) == total_pairs,
            total_pairs <= u32::MAX,
        decreases data.len(),
    {
        proof {
            lemma_even_prefix_step(data@, order);
        }
        accum += ne_read_u16(data) as u32;
        data = slice_subrange(data, WORD_SIZE, data.len());
    }

    // Add the last remaining odd byte, if any.
    let ghost before = accum;
    if let Some(value) = data.first() {
        add_assign_with_carry_u32(&mut accum, ne_read_u16(&[*value, 0]) as u32);
    }
    proof {
        assert(ones_equiv(accum as int, total as int));
        lemma_fold_respects_equiv(accum as nat, total);
        lemma_native_fold(input, order);
    }

    let val = propagate_carries(accum);
    ne_to_network(val)
}

/// Compute an RFC 1071 compliant checksum (without the final complement) from
/// native-endian 16-bit reads, in two interleaved accumulators.
///
/// All additions are plain 32-bit additions, so inputs whose native-order
/// words sum past `u32::MAX` are excluded.
pub fn checksum_sliced_ne_u16_unroll(data: &[u8]) -> (sum: u16)
    requires
        word_sum(data@, endianness()) <= u32::MAX,
    ensures
        sum == internet_sum(data@),
{
    let ghost input = data@;
    let ghost order = endianness();
    let ghost total = word_sum(input, order);
    let mut data = data;
    let mut accum: u32 = 0;
    let mut accum2: u32 = 0;

    // Sum as much as possible in 4 byte chunks
    while data.len() >= NE_CHUNK
        invariant
            order == endianness(),
            accum + accum2 + word_sum(data@, order) == total,
            total <= u32::MAX,
        decreases data.len(),
    {
        proof {
            lemma_word_sum_step4(data@, order);
        }
        accum += u16_from_ne_bytes([data[0], data[1]]) as u32;
        accum2 += u16_from_ne_bytes([data[2], data[3]]) as u32;
        data = slice_subrange(data, NE_CHUNK, data.len());
    }

    accum += accum2;

    if data.len() >= 2 {
        accum += u16_from_ne_bytes([data[0], data[1]]) as u32;
        data = slice_subrange(data, 2, data.len());
    }
    assert(data@.len() < 2);
    assert(accum + word_sum(data@, order) == total);

    // Add the last remaining odd byte, if any.
    if let Some(byte) = data.first() {
        accum += u16_from_ne_bytes([*byte, 0]) as u32;
    }
    proof {
        lemma_native_fold(input, order);
    }

    let val = propagate_carries(accum);
    ne_to_network(val)
}

/// Compute an RFC 1071 compliant checksum (without the final complement) from
/// native-endian reads of exact 2-byte chunks.
///
/// All additions are plain 32-bit additions, so inputs whose native-order
/// words sum past `u32::MAX` are excluded.
pub fn checksum_chunks_ne_u16(data: &[u8]) -> (sum: u16)
    requires
        word_sum(data@, endianness()) <= u32::MAX,
    ensures
        sum == internet_sum(data@),
{
    let ghost input = data@;
    let ghost order = endianness();
    let ghost total = word_sum(input, order);
    let mut accum: u32 = 0;
    proof {
        assert(input.subrange(0, input.len() as int) =~= input);
    }

    // ... take by 2 bytes and sum them.
    let len = data.len();
    let pairs = len / WORD_SIZE;
    let mut k: usize = 0;
    while k < pairs
        invariant
            order == endianness(),
            len == input.len(),
            data@ == input,
            pairs == len / 2,
            2 * pairs <= len,
            k <= pairs,
            accum + word_sum(input.subrange(2 * k, len as int), order) == total,
            total <= u32::MAX,
        decreases pairs - k,
    {
        proof {
            lemma_word_sum_from(input, 2 * k, order);
        }
        let pair = slice_subrange(data, WORD_SIZE * k, WORD_SIZE * k + WORD_SIZE);
        accum += u16_from_ne_bytes([pair[0], pair[1]]) as u32;
        k += 1;
    }

    // Add the last remaining odd byte, if any.
    let remainder = slice_subrange(data, WORD_SIZE * pairs, len);
    proof {
        lemma_word_sum_from(input, 2 * pairs, order);
    }
    if let Some(byte) = remainder.first() {
        accum += u16_from_ne_bytes([*byte, 0]) as u32;
    }
    proof {
        lemma_native_fold(input, order);
    }

    let val = propagate_carries(accum);
    ne_to_network(val)
}

/// Compute an RFC 1071 compliant checksum (without the final complement) from
/// native-endian reads of exact 4-byte chunks, in two interleaved accumulators.
///
/// All additions are plain 32-bit additions, so inputs whose native-order
/// words sum past `u32::MAX` are excluded.
pub fn checksum_chunks_ne_u16_unroll(data: &[u8]) -> (sum: u16)
    requires
        word_sum(data@, endianness()) <= u32::MAX,
    ensures
        sum == internet_sum(data@),
{
    let ghost input = data@;
    let ghost order = endianness();
    let ghost total = word_sum(input, order);
    let mut accum: u32 = 0;
    let mut accum2: u32 = 0;
    proof {
        assert(input.subrange(0, input.len() as int) =~= input);
    }

    // ... take by 4 bytes and sum them as two words.
    let len = data.len();
    let chunks = len / NE_CHUNK;
    let mut c: usize = 0;
    while c < chunks
        invariant
            order == endianness(),
            len == input.len(),
            data@ == input,
            chunks == len / 4,
            4 * chunks <= len,
            c <= chunks,
            accum + accum2 + word_sum(input.subrange(4 * c, len as int), order) == total,
            total <= u32::MAX,
        decreases chunks - c,
    {
        proof {
            let d = input.subrange(4 * c, len as int);
            assert(d.subrange(4, d.len() as int) =~= input.subrange(4 * c + 4, len as int));
            lemma_word_sum_step4(d, order);
        }
        let pair = slice_subrange(data, NE_CHUNK * c, NE_CHUNK * c + NE_CHUNK);
        accum += u16_from_ne_bytes([pair[0], pair[1]]) as u32;
        accum2 += u16_from_ne_bytes([pair[2], pair[3]]) as u32;
        c += 1;
    }

    accum += accum2;

    let mut remainder = slice_subrange(data, NE_CHUNK * chunks, len);
    if remainder.len() >= 2 {
        accum += u16_from_ne_bytes([remainder[0], remainder[1]]) as u32;
        remainder = slice_subrange(remainder, 2, remainder.len());
    }
    assert(remainder@.len() < 2);
    assert(accum + word_sum(remainder@, order) == total);

    // Add the last remaining odd byte, if any.
    if let Some(byte) = remainder.first() {
        accum += u16_from_ne_bytes([*byte, 0]) as u32;
    }
    proof {
        lemma_native_fold(input, order);
    }

    let val = propagate_carries(accum);
    ne_to_network(val)
}

/// Compute an RFC 1071 compliant checksum (without the final complement) with
/// four-lane vector additions over 16-byte chunks.
///
/// Each lane keeps a 32-bit sum and a 32-bit count of its carries; the counts
/// are exact while there are fewer than 2^32 chunks, that is for inputs shorter
/// than 2^36 bytes, and the result is stated for those.
pub fn checksum_wide(data: &[u8]) -> (sum: u16)
    ensures
        data@.len() < 0x10_0000_0000 ==> sum == internet_sum(data@),
{
    let ghost input = data@;
    let ghost order = endianness();
    let ghost total = word_sum(input, order);
    let ghost bounded = input.len() < 0x10_0000_0000;
    let ghost mut done: nat = 0;
    let ghost mut sums: Seq<int> = seq![0int, 0int, 0int, 0int];
    let mut wide_accum: [u32; 4] = [0u32, 0u32, 0u32, 0u32];
    let mut wide_carry_accum: [u32; 4] = [0u32, 0u32, 0u32, 0u32];
    proof {
        assert(input.subrange(0, input.len() as int) =~= input);
    }

    let len = data.len();
    let chunks = len / WIDE_CHUNK;
    let mut c: usize = 0;
    while c < chunks
        invariant
            order == endianness(),
            len == input.len(),
            data@ == input,
            chunks == len / 16,
            16 * chunks <= len,
            c <= chunks,
            bounded == (input.len() < 0x10_0000_0000),
            done + word_sum(input.subrange(16 * c, len as int), order) == total,
            sums.len() == 4,
            forall|j: int| 0 <= j < 4 ==> #[trigger] wide_carry_accum@[j] <= c,
            forall|j: int| 0 <= j < 4 ==> #[trigger] sums[j] >= 0,
            bounded ==> forall|j: int|
                0 <= j < 4 ==> wide_accum@[j] + wide_carry_accum@[j] * 0x1_0000_0000
                    == #[trigger] sums[j],
            ones_equiv(sums[0] + sums[1] + sums[2] + sums[3], done as int),
        decreases chunks - c,
    {
        let chunk = slice_subrange(data, WIDE_CHUNK * c, WIDE_CHUNK * c + WIDE_CHUNK);
        let vals = read_lanes(chunk);
        let ghost old_accum = wide_accum;
        let ghost old_carry = wide_carry_accum;
        let saturated_add = lanes_saturating_add(wide_accum, vals);
        wide_accum = lanes_wrapping_add(wide_accum, vals);

        // if there was overflow then saturated add will not be equal to wrapping add
        // equal mask will take max value for each non-equal lane
        let equal_mask = lanes_ne_mask(wide_accum, saturated_add);
        wide_carry_accum = lanes_wrapping_sub(wide_carry_accum, equal_mask);
        proof {
            let d = input.subrange(16 * c, len as int);
            let q = d.subrange(0, 16);
            assert(q =~= chunk@);
            lemma_word_sum_split(d, 16, order);
            assert(d.subrange(16, d.len() as int) =~= input.subrange(16 * c + 16, len as int));
            lemma_chunk16_equiv(chunk@, order);
            assert(vals@[0] == word32(q[0], q[1], q[2], q[3], order));
            assert(vals@[1] == word32(q[4], q[5], q[6], q[7], order));
            assert(vals@[2] == word32(q[8], q[9], q[10], q[11], order));
            assert(vals@[3] == word32(q[12], q[13], q[14], q[15], order));
            let lane_total = vals@[0] + vals@[1] + vals@[2] + vals@[3];
            lemma_equiv_add(
                sums[0] + sums[1] + sums[2] + sums[3],
                lane_total,
                done as int,
                word_sum(q, order) as int,
            );
            let new_sums = Seq::new(4, |j: int| sums[j] + vals@[j]);
            assert forall|j: int| 0 <= j < 4 implies #[trigger] wide_carry_accum@[j] <= c + 1 by {
                assert(equal_mask@[j] == u32::MAX || equal_mask@[j] == 0);
            }
            if bounded {
                assert forall|j: int|
                    0 <= j < 4 implies wide_accum@[j] + wide_carry_accum@[j] * 0x1_0000_0000
                    == #[trigger] new_sums[j] by {
                    assert(old_carry@[j] < u32::MAX);
                    if old_accum@[j] + vals@[j] > u32::MAX {
                        assert(equal_mask@[j] == u32::MAX);
                        assert(wide_carry_accum@[j] == old_carry@[j] + 1);
                    } else {
                        assert(equal_mask@[j] == 0);
                    }
                }
            }
            done = done + word_sum(q, order);
            sums = new_sums;
        }
        c += 1;
    }

    // add the carries in, checking for more carries
    let ghost before = wide_accum;
    let saturated_add = lanes_saturating_add(wide_accum, wide_carry_accum);
    wide_accum = lanes_wrapping_add(wide_accum, wide_carry_accum);
    let equal_mask = lanes_ne_mask(wide_accum, saturated_add);
    wide_accum = lanes_wrapping_sub(wide_accum, equal_mask);
    proof {
        assert forall|j: int| 0 <= j < 4 implies #[trigger] wide_accum@[j] == end_around_add(
            before@[j],
            wide_carry_accum@[j],
        ) by {
            if before@[j] + wide_carry_accum@[j] > u32::MAX {
                assert(equal_mask@[j] == u32::MAX);
            } else {
                assert(equal_mask@[j] == 0);
            }
        }
    }

    // collapse wide vec into u32
    let mut accum: u32 = 0;
    let vals: [u32; 4] = wide_accum;
    add_assign_with_carry_u32(&mut accum, vals[0]);
    let ghost acc1 = accum;
    add_assign_with_carry_u32(&mut accum, vals[1]);
    let ghost acc2 = accum;
    add_assign_with_carry_u32(&mut accum, vals[2]);
    let ghost acc3 = accum;
    add_assign_with_carry_u32(&mut accum, vals[3]);
    proof {
        if bounded {
            assert forall|j: int| 0 <= j < 4 implies ones_equiv(
                #[trigger] vals@[j] as int,
                sums[j],
            ) by {
                lemma_end_around_add(before@[j], wide_carry_accum@[j]);
                lemma_equiv_carry_weight(before@[j] as int, wide_carry_accum@[j] as int);
            }
            assert(ones_equiv(vals@[0] as int, sums[0]));
            assert(ones_equiv(vals@[1] as int, sums[1]));
            assert(ones_equiv(vals@[2] as int, sums[2]));
            assert(ones_equiv(vals@[3] as int, sums[3]));
            lemma_accumulate(0, acc1 as int, vals@[0] as int, 0, sums[0]);
            lemma_accumulate(acc1 as int, acc2 as int, vals@[1] as int, sums[0], sums[1]);
            lemma_accumulate(
                acc2 as int,
                acc3 as int,
                vals@[2] as int,
                sums[0] + sums[1],
                sums[2],
            );
            lemma_accumulate(
                acc3 as int,
                accum as int,
                vals@[3] as int,
                sums[0] + sums[1] + sums[2],
                sums[3],
            );
            lemma_equiv_trans(
                accum as int,
                sums[0] + sums[1] + sums[2] + sums[3],
                done as int,
            );
        }
    }

    // we can add without carry into tail_accum u32 as tail is guaranteed to be short
    let tail = slice_subrange(data, WIDE_CHUNK * chunks, len);
    let ghost tail_sum = word_sum(tail@, order);
    let mut tail_accum: u32 = 0;
    proof {
        assert(tail@.subrange(0, tail@.len() as int) =~= tail@);
    }

    // ... take by 2 bytes and sum them.
    let tail_len = tail.len();
    let pairs = tail_len / WORD_SIZE;
    let mut k: usize = 0;
    while k < pairs
        invariant
            order == endianness(),
            tail_len == tail@.len(),
            tail_len < 16,
            pairs == tail_len / 2,
            2 * pairs <= tail_len,
            k <= pairs,
            tail_accum <= 65535 * k,
            tail_accum + word_sum(tail@.subrange(2 * k, tail_len as int), order) == tail_sum,
        decreases pairs - k,
    {
        proof {
            lemma_word_sum_from(tail@, 2 * k, order);
        }
        let pair = slice_subrange(tail, WORD_SIZE * k, WORD_SIZE * k + WORD_SIZE);
        tail_accum += u16_from_ne_bytes([pair[0], pair[1]]) as u32;
        k += 1;
    }

    // Add the last remaining odd byte, if any.
    let odd = slice_subrange(tail, WORD_SIZE * pairs, tail_len);
    proof {
        lemma_word_sum_from(tail@, 2 * pairs, order);
    }
    if let Some(byte) = odd.first() {
        tail_accum += u16_from_ne_bytes([*byte, 0]) as u32;
    }

    let ghost before_tail = accum;
    add_assign_with_carry_u32(&mut accum, tail_accum);
    proof {
        if bounded {
            lemma_accumulate(
                before_tail as int,
                accum as int,
                tail_accum as int,
                done as int,
                tail_accum as int,
            );
            assert(tail@ =~= input.subrange(16 * chunks, len as int));
            lemma_fold_respects_equiv(accum as nat, total);
            lemma_native_fold(input, order);
        }
    }
    let val = propagate_carries(accum);
    ne_to_network(val)
}

} // verus!
