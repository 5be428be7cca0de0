//! Laws of the Internet checksum that hold of every input.
use crate::lemmas::{
    lemma_byte_order_independence, lemma_equiv_add, lemma_fold_equiv, lemma_fold_respects_equiv,
    lemma_word_sum_concat,
};
use crate::model::{internet_sum, ones_fold, swap_bytes16, word_sum};
use vstd::endian::Endian;
use vstd::prelude::*;

verus! {

/// Byte-order independence: summing the 16-bit words of `data` read
/// little-endian gives the byte-swapped Internet checksum, so a machine of
/// either byte order can sum in its native order and swap once at the end.
pub proof fn law_byte_order_independence(data: Seq<u8>)
    ensures
        ones_fold(word_sum(data, Endian::Little)) == swap_bytes16(internet_sum(data)),
{
    lemma_byte_order_independence(data);
}

/// Incremental summation: the checksum of `a` followed by `b`, where `a` has an
/// even length, is the ones-complement sum of the two checksums; this is why
/// the data can be summed in any split into chunks.
pub proof fn law_concat(a: Seq<u8>, b: Seq<u8>)
    requires
        a.len() % 2 == 0,
    ensures
        internet_sum(a + b) == ones_fold((internet_sum(a) + internet_sum(b)) as nat),
{
    let sa = word_sum(a, Endian::Big);
    let sb = word_sum(b, Endian::Big);
    lemma_word_sum_concat(a, b, Endian::Big);
    lemma_fold_equiv(sa);
    lemma_fold_equiv(sb);
    lemma_equiv_add(internet_sum(a) as int, internet_sum(b) as int, sa as int, sb as int);
    lemma_fold_respects_equiv((internet_sum(a) + internet_sum(b)) as nat, sa + sb);
}

/// Commutativity: exchanging two blocks of even length does not change the
/// checksum.
pub proof fn law_swap_blocks(a: Seq<u8>, b: Seq<u8>)
    requires
        a.len() % 2 == 0,
        b.len() % 2 == 0,
    ensures
        internet_sum(a + b) == internet_sum(b + a),
{
    law_concat(a, b);
    law_concat(b, a);
}

/// The checksum is the ones-complement value of the word sum: congruent to it
/// modulo 65535, zero exactly when every word is zero, and at most 16 bits.
pub proof fn law_checksum_is_ones_sum(data: Seq<u8>)
    ensures
        internet_sum(data) as int % 65535 == word_sum(data, Endian::Big) as int % 65535,
        internet_sum(data) == 0 <==> word_sum(data, Endian::Big) == 0,
{
    lemma_fold_equiv(word_sum(data, Endian::Big));
}

} // verus!
