//! Facts about ones-complement sums that the implementations rest on.
use crate::model::{
    end_around_add, even_prefix, internet_sum, ones_equiv, ones_fold, strided_word32_sum,
    swap_bytes16, word16, word32, word_sum,
};
use vstd::arithmetic::div_mod::{
    lemma_add_mod_noop, lemma_fundamental_div_mod, lemma_mod_multiples_vanish,
    lemma_mul_mod_noop_right, lemma_sub_mod_noop,
};
use vstd::endian::Endian;
use vstd::prelude::*;

verus! {

/// `ones_equiv` is an equivalence relation.
pub proof fn lemma_equiv_trans(a: int, b: int, c: int)
    requires
        ones_equiv(a, b),
        ones_equiv(b, c),
    ensures
        ones_equiv(a, c),
{
}

/// Adding equivalent naturals gives equivalent sums.
pub proof fn lemma_equiv_add(a: int, b: int, s: int, t: int)
    requires
        a >= 0,
        b >= 0,
        s >= 0,
        t >= 0,
        ones_equiv(a, s),
        ones_equiv(b, t),
    ensures
        ones_equiv(a + b, s + t),
{
    lemma_add_mod_noop(a, b, 65535);
    lemma_add_mod_noop(s, t, 65535);
}

/// Subtracting a multiple of 65535 keeps the residue modulo 65535.
pub proof fn lemma_mod_drop_multiple(x: int, k: int)
    ensures
        (x + 65535 * k) % 65535 == x % 65535,
{
    lemma_mod_multiples_vanish(k, x, 65535);
}

/// A 32-bit end-around-carry addition keeps the ones-complement value of the
/// exact sum.
pub proof fn lemma_end_around_add(a: u32, b: u32)
    ensures
        ones_equiv(end_around_add(a, b) as int, a + b),
{
    if a + b > u32::MAX {
        lemma_mod_drop_multiple(end_around_add(a, b) as int, 65537);
    }
}

/// Adding `c * 2^32` in place of `c` keeps the ones-complement value.
pub proof fn lemma_equiv_carry_weight(x: int, c: int)
    requires
        x >= 0,
        c >= 0,
    ensures
        ones_equiv(x + c, x + c * 0x1_0000_0000),
{
    lemma_mod_drop_multiple(x + c, 65537 * c);
}

/// A 32-bit word stands for the same ones-complement value as the sum of its two
/// 16-bit halves.
pub proof fn lemma_word32_equiv(b0: u8, b1: u8, b2: u8, b3: u8, order: Endian)
    ensures
        ones_equiv(
            word32(b0, b1, b2, b3, order) as int,
            (word16(b0, b1, order) + word16(b2, b3, order)) as int,
        ),
{
    let lo = word16(b0, b1, order);
    let hi = word16(b2, b3, order);
    match order {
        Endian::Big => lemma_mod_drop_multiple((hi + lo) as int, lo as int),
        Endian::Little => lemma_mod_drop_multiple((lo + hi) as int, hi as int),
    }
}

/// A natural stands for the same ones-complement value as its fold.
pub proof fn lemma_fold_equiv(n: nat)
    ensures
        ones_equiv(ones_fold(n) as int, n as int),
        ones_fold(n) as int <= 65535,
{
    if n > 0 {
        let r = (n - 1) % 65535;
        lemma_fundamental_div_mod(n - 1, 65535);
        lemma_mod_drop_multiple(r + 1, (n - 1) / 65535);
    }
}

/// Equivalent naturals fold to the same 16-bit value.
pub proof fn lemma_fold_respects_equiv(a: nat, b: nat)
    requires
        ones_equiv(a as int, b as int),
    ensures
        ones_fold(a) == ones_fold(b),
{
    if a > 0 {
        lemma_sub_mod_noop(a as int, 1, 65535);
        lemma_sub_mod_noop(b as int, 1, 65535);
    }
}

/// A natural of at most 65535 that stands for the value of `n` is the fold of `n`.
pub proof fn lemma_fold_unique(r: nat, n: nat)
    requires
        r <= 65535,
        ones_equiv(r as int, n as int),
    ensures
        ones_fold(n) == r,
{
    lemma_fold_respects_equiv(r, n);
}

/// Removing the first four bytes removes their two words from the word sum.
pub proof fn lemma_word_sum_step4(data: Seq<u8>, order: Endian)
    requires
        data.len() >= 4,
    ensures
        word_sum(data, order) == word16(data[0], data[1], order) + word16(data[2], data[3], order)
            + word_sum(data.subrange(4, data.len() as int), order),
{
    let rest = data.subrange(2, data.len() as int);
    assert(rest.subrange(2, rest.len() as int) =~= data.subrange(4, data.len() as int));
    assert(rest[0] == data[2] && rest[1] == data[3]);
    assert(word_sum(rest, order) == word16(rest[0], rest[1], order) + word_sum(
        rest.subrange(2, rest.len() as int),
        order,
    ));
}

/// Splitting at an even offset splits the word sum.
pub proof fn lemma_word_sum_split(data: Seq<u8>, at: int, order: Endian)
    requires
        0 <= at <= data.len(),
        at % 2 == 0,
    ensures
        word_sum(data, order) == word_sum(data.subrange(0, at), order) + word_sum(
            data.subrange(at, data.len() as int),
            order,
        ),
    decreases at,
{
    if at == 0 {
        assert(data.subrange(0, 0).len() == 0);
        assert(data.subrange(0, data.len() as int) =~= data);
    } else {
        let rest = data.subrange(2, data.len() as int);
        lemma_word_sum_split(rest, at - 2, order);
        let head = data.subrange(0, at);
        assert(head.subrange(2, head.len() as int) =~= rest.subrange(0, at - 2));
        assert(rest.subrange(at - 2, rest.len() as int) =~= data.subrange(at, data.len() as int));
    }
}

/// The word sum of a concatenation whose first part has even length.
pub proof fn lemma_word_sum_concat(a: Seq<u8>, b: Seq<u8>, order: Endian)
    requires
        a.len() % 2 == 0,
    ensures
        word_sum(a + b, order) == word_sum(a, order) + word_sum(b, order),
{
    lemma_word_sum_split(a + b, a.len() as int, order);
    assert((a + b).subrange(0, a.len() as int) =~= a);
    assert((a + b).subrange(a.len() as int, (a + b).len() as int) =~= b);
}

/// Reading the words of `data` little-endian multiplies their sum by 256 in
/// ones-complement arithmetic.
pub proof fn lemma_little_sum_is_shifted(data: Seq<u8>)
    ensures
        word_sum(data, Endian::Little) % 65535 == (256 * word_sum(data, Endian::Big)) % 65535,
        word_sum(data, Endian::Little) == 0 <==> word_sum(data, Endian::Big) == 0,
    decreases data.len(),
{
    let little = word_sum(data, Endian::Little) as int;
    let big = word_sum(data, Endian::Big) as int;
    if data.len() == 0 {
    } else if data.len() == 1 {
        lemma_mod_drop_multiple(data[0] as int, data[0] as int);
    } else {
        let rest = data.subrange(2, data.len() as int);
        lemma_little_sum_is_shifted(rest);
        let lw = word16(data[0], data[1], Endian::Little) as int;
        let bw = word16(data[0], data[1], Endian::Big) as int;
        let lr = word_sum(rest, Endian::Little) as int;
        let br = word_sum(rest, Endian::Big) as int;
        // 256 * bw == lw + 65535 * data[0]
        lemma_mod_drop_multiple(lw, data[0] as int);
        assert(256 * bw == lw + 65535 * data[0]);
        assert(256 * big == 256 * bw + 256 * br);
        lemma_add_mod_noop(256 * bw, 256 * br, 65535);
        lemma_add_mod_noop(lw, lr, 65535);
    }
}

/// Exchanging the bytes of a 16-bit value multiplies it by 256 in
/// ones-complement arithmetic.
pub proof fn lemma_swap_is_shift(x: u16)
    ensures
        (swap_bytes16(x) as int) % 65535 == (256 * x) % 65535,
        swap_bytes16(x) == 0 <==> x == 0,
        swap_bytes16(swap_bytes16(x)) == x,
{
    lemma_fundamental_div_mod(x as int, 256);
    let q = x / 256;
    let r = x % 256;
    assert(256 * x == 65535 * q + swap_bytes16(x));
    lemma_mod_drop_multiple(swap_bytes16(x) as int, q as int);
}

/// Byte-order independence (RFC 1071, section 2(B)): summing the words read in
/// little-endian order gives the byte-swapped big-endian sum.
pub proof fn lemma_byte_order_independence(data: Seq<u8>)
    ensures
        ones_fold(word_sum(data, Endian::Little)) == swap_bytes16(
            ones_fold(word_sum(data, Endian::Big)),
        ),
{
    let big = word_sum(data, Endian::Big);
    let little = word_sum(data, Endian::Little);
    let f = ones_fold(big);
    lemma_fold_equiv(big);
    lemma_little_sum_is_shifted(data);
    lemma_swap_is_shift(f);
    lemma_mul_mod_noop_right(256, f as int, 65535);
    lemma_mul_mod_noop_right(256, big as int, 65535);
    lemma_fold_unique(swap_bytes16(f) as nat, little);
}

/// The word sum of a suffix starting at `at`, split into its first word and
/// the rest.
pub proof fn lemma_word_sum_from(data: Seq<u8>, at: int, order: Endian)
    requires
        0 <= at <= data.len(),
    ensures
        at + 2 <= data.len() ==> word_sum(data.subrange(at, data.len() as int), order) == word16(
            data[at],
            data[at + 1],
            order,
        ) + word_sum(data.subrange(at + 2, data.len() as int), order),
        at + 1 == data.len() ==> word_sum(data.subrange(at, data.len() as int), order) == word16(
            data[at],
            0,
            order,
        ),
        at == data.len() ==> word_sum(data.subrange(at, data.len() as int), order) == 0,
{
    let suffix = data.subrange(at, data.len() as int);
    if at + 2 <= data.len() {
        assert(suffix.subrange(2, suffix.len() as int) =~= data.subrange(at + 2, data.len() as int));
    }
}

/// Adding a value to an accumulator adds its ones-complement value.
pub proof fn lemma_accumulate(acc_old: int, acc_new: int, value: int, done: int, words: int)
    requires
        acc_old >= 0,
        value >= 0,
        done >= 0,
        words >= 0,
        ones_equiv(acc_new, acc_old + value),
        ones_equiv(acc_old, done),
        ones_equiv(value, words),
    ensures
        ones_equiv(acc_new, done + words),
{
    lemma_equiv_add(acc_old, value, done, words);
}

/// Folding the native-order word sum and putting the result into network order
/// gives the Internet checksum, whatever the native order.
pub proof fn lemma_native_fold(data: Seq<u8>, order: Endian)
    ensures
        order == Endian::Big ==> ones_fold(word_sum(data, order)) == internet_sum(data),
        order == Endian::Little ==> ({
            let v = ones_fold(word_sum(data, order));
            ((v % 256) * 256 + v / 256) == internet_sum(data)
        }),
{
    lemma_byte_order_independence(data);
    lemma_swap_is_shift(internet_sum(data));
}

/// The word sum of the longest even-length prefix, split into its first word
/// and the rest.
pub proof fn lemma_even_prefix_step(data: Seq<u8>, order: Endian)
    ensures
        data.len() >= 2 ==> word_sum(even_prefix(data), order) == word16(data[0], data[1], order)
            + word_sum(even_prefix(data.subrange(2, data.len() as int)), order),
        data.len() < 2 ==> word_sum(even_prefix(data), order) == 0,
{
    if data.len() >= 2 {
        let p = even_prefix(data);
        let rest = data.subrange(2, data.len() as int);
        assert(p.subrange(2, p.len() as int) =~= even_prefix(rest));
    } else {
        assert(even_prefix(data).len() == 0);
    }
}

/// The four 32-bit words of a 16-byte chunk stand for the same ones-complement
/// value as its eight 16-bit words.
pub proof fn lemma_chunk16_equiv(chunk: Seq<u8>, order: Endian)
    requires
        chunk.len() == 16,
    ensures
        ones_equiv(
            (word32(chunk[0], chunk[1], chunk[2], chunk[3], order) + word32(
                chunk[4],
                chunk[5],
                chunk[6],
                chunk[7],
                order,
            ) + word32(chunk[8], chunk[9], chunk[10], chunk[11], order) + word32(
                chunk[12],
                chunk[13],
                chunk[14],
                chunk[15],
                order,
            )) as int,
            word_sum(chunk, order) as int,
        ),
{
    let q1 = chunk.subrange(4, 16);
    let q2 = q1.subrange(4, 12);
    let q3 = q2.subrange(4, 8);
    lemma_word_sum_step4(chunk, order);
    lemma_word_sum_step4(q1, order);
    lemma_word_sum_step4(q2, order);
    lemma_word_sum_step4(q3, order);
    assert(q3.subrange(4, 4).len() == 0);
    lemma_word32_equiv(chunk[0], chunk[1], chunk[2], chunk[3], order);
    lemma_word32_equiv(chunk[4], chunk[5], chunk[6], chunk[7], order);
    lemma_word32_equiv(chunk[8], chunk[9], chunk[10], chunk[11], order);
    lemma_word32_equiv(chunk[12], chunk[13], chunk[14], chunk[15], order);
    let v0 = word32(chunk[0], chunk[1], chunk[2], chunk[3], order) as int;
    let v1 = word32(chunk[4], chunk[5], chunk[6], chunk[7], order) as int;
    let v2 = word32(chunk[8], chunk[9], chunk[10], chunk[11], order) as int;
    let v3 = word32(chunk[12], chunk[13], chunk[14], chunk[15], order) as int;
    let w0 = (word16(chunk[0], chunk[1], order) + word16(chunk[2], chunk[3], order)) as int;
    let w1 = (word16(chunk[4], chunk[5], order) + word16(chunk[6], chunk[7], order)) as int;
    let w2 = (word16(chunk[8], chunk[9], order) + word16(chunk[10], chunk[11], order)) as int;
    let w3 = (word16(chunk[12], chunk[13], order) + word16(chunk[14], chunk[15], order)) as int;
    lemma_equiv_add(v0, v1, w0, w1);
    lemma_equiv_add(v0 + v1, v2, w0 + w1, w2);
    lemma_equiv_add(v0 + v1 + v2, v3, w0 + w1 + w2, w3);
}

/// Each 16-bit word is at most 65535, so the word sum of `data` is at most
/// 65535 per started pair of bytes.
pub proof fn lemma_word_sum_bound(data: Seq<u8>, order: Endian)
    ensures
        2 * word_sum(data, order) <= 65535 * (data.len() + 1),
    decreases data.len(),
{
    if data.len() >= 2 {
        lemma_word_sum_bound(data.subrange(2, data.len() as int), order);
    }
}

/// Each 32-bit word is at most `u32::MAX`, so the strided sum of `data` is at
/// most `u32::MAX` per full chunk of `stride` bytes.
pub proof fn lemma_strided_word32_sum_bound(data: Seq<u8>, stride: nat, offset: nat, order: Endian)
    requires
        stride > 0,
    ensures
        stride * strided_word32_sum(data, stride, offset, order) <= u32::MAX * data.len(),
    decreases data.len(),
{
    if data.len() >= stride && stride >= offset + 4 {
        let rest = data.subrange(stride as int, data.len() as int);
        lemma_strided_word32_sum_bound(rest, stride, offset, order);
        let w = word32(
            data[offset as int],
            data[offset as int + 1],
            data[offset as int + 2],
            data[offset as int + 3],
            order,
        );
        assert(w <= u32::MAX) by {
            match order {
                Endian::Big => {},
                Endian::Little => {},
            }
        }
        let r = strided_word32_sum(rest, stride, offset, order);
        assert(stride * (w + r) <= u32::MAX * data.len()) by (nonlinear_arith)
            requires
                w <= u32::MAX,
                stride * r <= u32::MAX * rest.len(),
                rest.len() + stride == data.len(),
        ;
        assert(strided_word32_sum(data, stride, offset, order) == w + r);
    } else {
        assert(strided_word32_sum(data, stride, offset, order) == 0);
        assert(stride * 0 == 0) by (nonlinear_arith);
    }
}

} // verus!
