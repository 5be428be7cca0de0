//! Four-lane 32-bit vector arithmetic, done by the `wide` crate's `u32x4`.
//!
//! The lanes are held as plain `[u32; 4]` arrays; each operation converts to
//! `u32x4`, makes one call into `wide`, and converts back.
use crate::model::word32;
use vstd::endian::endianness;
use vstd::prelude::*;
use wide::u32x4;

verus! {

/// Calls `bytemuck::pod_read_unaligned::<wide::u32x4>`, which copies the 16
/// bytes into the vector's memory representation (`u32x4` is `[u32; 4]` in
/// memory), then `u32x4::to_array`. Claimed: lane `j` is the 32-bit word at
/// bytes `4 * j .. 4 * j + 4` read in the byte order of the executing hardware;
/// a slice of another length (where it panics) is excluded.
#[verifier::external_body]
pub(crate) fn read_lanes(chunk: &[u8]) -> (lanes: [u32; 4])
    requires
        chunk@.len() == 16,
    ensures
        forall|j: int|
            0 <= j < 4 ==> #[trigger] lanes@[j] == word32(
                chunk@[4 * j],
                chunk@[4 * j + 1],
                chunk@[4 * j + 2],
                chunk@[4 * j + 3],
                endianness(),
            ),
{
    bytemuck::pod_read_unaligned::<u32x4>(chunk).to_array()
}

/// Calls `u32x4::saturating_add` of `wide`, whose source adds lane by lane and
/// returns `u32::MAX` in each lane whose sum overflows. Claimed: exactly that.
#[verifier::external_body]
pub(crate) fn lanes_saturating_add(a: [u32; 4], b: [u32; 4]) -> (sum: [u32; 4])
    ensures
        forall|j: int|
            0 <= j < 4 ==> #[trigger] sum@[j] == (if a@[j] + b@[j] > u32::MAX {
                u32::MAX as int
            } else {
                a@[j] + b@[j]
            }),
{
    u32x4::new(a).saturating_add(u32x4::new(b)).to_array()
}

/// Calls the `AddAssign` impl of `wide`'s `u32x4`, whose source adds lane by
/// lane with wrap-around. Claimed: each lane is the sum modulo 2^32.
#[verifier::external_body]
pub(crate) fn lanes_wrapping_add(a: [u32; 4], b: [u32; 4]) -> (sum: [u32; 4])
    ensures
        forall|j: int|
            0 <= j < 4 ==> #[trigger] sum@[j] == (if a@[j] + b@[j] > u32::MAX {
                a@[j] + b@[j] - 0x1_0000_0000
            } else {
                a@[j] + b@[j]
            }),
{
    let mut acc = u32x4::new(a);
    acc += u32x4::new(b);
    acc.to_array()
}

/// Calls the `SubAssign` impl of `wide`'s `u32x4`, whose source subtracts lane
/// by lane with wrap-around. Claimed: each lane is the difference modulo 2^32.
#[verifier::external_body]
pub(crate) fn lanes_wrapping_sub(a: [u32; 4], b: [u32; 4]) -> (diff: [u32; 4])
    ensures
        forall|j: int|
            0 <= j < 4 ==> #[trigger] diff@[j] == (if a@[j] < b@[j] {
                a@[j] - b@[j] + 0x1_0000_0000
            } else {
                a@[j] - b@[j]
            }),
{
    let mut acc = u32x4::new(a);
    acc -= u32x4::new(b);
    acc.to_array()
}

/// Calls `u32x4::simd_ne` of `wide`, whose source compares lane by lane and
/// gives an all-ones lane where the lanes differ and a zero lane where they are
/// equal. Claimed: exactly that.
#[verifier::external_body]
pub(crate) fn lanes_ne_mask(a: [u32; 4], b: [u32; 4]) -> (mask: [u32; 4])
    ensures
        forall|j: int|
            0 <= j < 4 ==> #[trigger] mask@[j] == (if a@[j] != b@[j] {
                u32::MAX
            } else {
                0
            }),
{
    u32x4::new(a).simd_ne(u32x4::new(b)).to_array()
}

} // verus!
