//! The mathematical model of the Internet checksum (RFC 1071), over byte
//! sequences and unbounded naturals.
use vstd::endian::Endian;
use vstd::prelude::*;

verus! {

/// The modulus of ones-complement arithmetic on 16-bit words.
pub open spec fn ones_modulus() -> int {
    65535
}

/// The 16-bit word stored in memory as the bytes `b0` then `b1`, read in byte
/// order `order`.
pub open spec fn word16(b0: u8, b1: u8, order: Endian) -> nat {
    match order {
        Endian::Big => b0 as nat * 256 + b1 as nat,
        Endian::Little => b1 as nat * 256 + b0 as nat,
    }
}

/// The 32-bit word stored in memory as the bytes `b0`, `b1`, `b2`, `b3`, read in
/// byte order `order`.
pub open spec fn word32(b0: u8, b1: u8, b2: u8, b3: u8, order: Endian) -> nat {
    match order {
        Endian::Big => word16(b0, b1, order) * 65536 + word16(b2, b3, order),
        Endian::Little => word16(b2, b3, order) * 65536 + word16(b0, b1, order),
    }
}

/// The sum, as an unbounded natural, of the 16-bit words of `data` read in byte
/// order `order`; an odd trailing byte is padded with a zero byte.
pub open spec fn word_sum(data: Seq<u8>, order: Endian) -> nat
    decreases data.len(),
{
    if data.len() == 0 {
        0
    } else if data.len() == 1 {
        word16(data[0], 0, order)
    } else {
        word16(data[0], data[1], order) + word_sum(data.subrange(2, data.len() as int), order)
    }
}

/// The sum of the 32-bit words at byte offset `offset` of each full chunk of
/// `stride` bytes of `data`, read in byte order `order`.
pub open spec fn strided_word32_sum(data: Seq<u8>, stride: nat, offset: nat, order: Endian) -> nat
    decreases data.len(),
{
    if stride == 0 || data.len() < stride || stride < offset + 4 {
        0
    } else {
        word32(
            data[offset as int],
            data[offset as int + 1],
            data[offset as int + 2],
            data[offset as int + 3],
            order,
        ) + strided_word32_sum(data.subrange(stride as int, data.len() as int), stride, offset, order)
    }
}

/// The longest prefix of `data` of even length: `data` without an odd trailing
/// byte.
pub open spec fn even_prefix(data: Seq<u8>) -> Seq<u8> {
    data.subrange(0, data.len() - data.len() % 2)
}

/// Folds a natural number into 16 bits with end-around carry: the ones-complement
/// sum whose value is congruent to `n` modulo 65535, and which is zero only for
/// `n == 0`.
pub open spec fn ones_fold(n: nat) -> u16 {
    if n == 0 {
        0
    } else {
        ((n - 1) % 65535 + 1) as u16
    }
}

/// The RFC 1071 Internet checksum of `data` before the final complement: the
/// ones-complement sum of its big-endian 16-bit words, an odd trailing byte
/// padded with a zero byte.
pub open spec fn internet_sum(data: Seq<u8>) -> u16 {
    ones_fold(word_sum(data, Endian::Big))
}

/// `x` with its two bytes exchanged.
pub open spec fn swap_bytes16(x: u16) -> u16 {
    ((x % 256) * 256 + x / 256) as u16
}

/// Two naturals stand for the same ones-complement value: they are congruent
/// modulo 65535 and are both zero or both nonzero.
pub open spec fn ones_equiv(a: int, b: int) -> bool {
    &&& a % ones_modulus() == b % ones_modulus()
    &&& (a == 0 <==> b == 0)
}

/// The value of `a + b` after a 32-bit addition whose carry out is added back in
/// at the bottom.
pub open spec fn end_around_add(a: u32, b: u32) -> u32 {
    if a + b > u32::MAX {
        (a + b - u32::MAX) as u32
    } else {
        (a + b) as u32
    }
}

} // verus!
