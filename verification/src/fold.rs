//! Carry handling: end-around-carry accumulation in 32 bits and the final fold
//! into 16 bits.
use crate::lemmas::{lemma_end_around_add, lemma_fold_unique, lemma_mod_drop_multiple};
use crate::model::{end_around_add, ones_equiv, ones_fold};
use vstd::prelude::*;

verus! {

/// Folds a 32-bit accumulator into its 16-bit ones-complement sum.
pub fn propagate_carries(word: u32) -> (folded: u16)
    ensures
        folded == ones_fold(word as nat),
{
    proof {
        assert(word >> 16 <= 0xffff && word & 0xffff <= 0xffff) by (bit_vector);
    }
    let sum = (word >> 16) + (word & 0xffff);
    proof {
        assert(word >> 16 == word / 0x10000) by (bit_vector);
        assert(word & 0xffff == word % 0x10000) by (bit_vector);
        assert(sum >> 16 == sum / 0x10000) by (bit_vector);
        assert(sum as u16 == sum % 0x10000) by (bit_vector);
        lemma_mod_drop_multiple(sum as int, (word / 0x10000) as int);
        lemma_mod_drop_multiple((sum / 0x10000 + sum % 0x10000) as int, (sum / 0x10000) as int);
        lemma_fold_unique((sum / 0x10000 + sum % 0x10000) as nat, word as nat);
    }
    ((sum >> 16) as u16) + (#[verifier::truncate] (sum as u16))
}

/// The sum of two 32-bit words modulo 2^32, and whether the exact sum
/// overflowed 32 bits.
pub fn overflowing_add_u32(a: u32, b: u32) -> (res: (u32, bool))
    ensures
        res.1 == (a + b > u32::MAX),
        res.0 == (if res.1 { a + b - 0x1_0000_0000 } else { a + b }),
{
    let sum = a.wrapping_add(b);
    (sum, sum < b)
}

/// Adds `b` to `*a`, feeding the carry out of bit 31 back in at bit 0.
pub fn add_assign_with_carry_u32(a: &mut u32, b: u32)
    ensures
        *final(a) == end_around_add(*old(a), b),
        ones_equiv(*final(a) as int, *old(a) + b),
{
    let (sum, carry) = overflowing_add_u32(*a, b);
    *a = sum;
    proof {
        lemma_end_around_add(*old(a), b);
    }
    // the carry is only set after an overflow, so adding it back cannot
    // overflow again
    *a += carry as u32;
}

} // verus!
