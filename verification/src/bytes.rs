//! Reading 16- and 32-bit words out of byte slices, in network (big-endian)
//! order and in the native order of the executing hardware.
//!
//! The native order is vstd's `endianness()`: an unspecified but fixed byte
//! order, so every proof about a native read holds for both orders.
use crate::model::{word16, word32};
use byteorder::{ByteOrder, NetworkEndian};
use vstd::endian::{endianness, Endian};
use vstd::prelude::*;

verus! {

/// Calls `NetworkEndian::read_u16` of the `byteorder` crate (an alias of
/// `BigEndian`), whose source reads `u16::from_be_bytes(buf[..2])`. Claimed: the
/// first two bytes read most significant first; `buf` of fewer than two bytes
/// (where it panics) is excluded.
#[verifier::external_body]
pub(crate) fn network_read_u16(buf: &[u8]) -> (value: u16)
    requires
        buf@.len() >= 2,
    ensures
        value == word16(buf@[0], buf@[1], Endian::Big),
{
    NetworkEndian::read_u16(buf)
}

/// Calls `u16::from_ne_bytes`, which std documents as building the integer from
/// its memory representation in native byte order. Claimed: the two bytes are
/// read in the byte order of the executing hardware.
#[verifier::external_body]
pub(crate) fn u16_from_ne_bytes(bytes: [u8; 2]) -> (value: u16)
    ensures
        value == word16(bytes@[0], bytes@[1], endianness()),
{
    u16::from_ne_bytes(bytes)
}

/// Calls `u32::from_ne_bytes`, which std documents as building the integer from
/// its memory representation in native byte order. Claimed: the four bytes are
/// read in the byte order of the executing hardware.
#[verifier::external_body]
fn u32_from_ne_bytes(bytes: [u8; 4]) -> (value: u32)
    ensures
        value == word32(bytes@[0], bytes@[1], bytes@[2], bytes@[3], endianness()),
{
    u32::from_ne_bytes(bytes)
}

/// Calls `u16::to_ne_bytes`, which std documents as returning the memory
/// representation of the integer in native byte order. Claimed: reading the two
/// bytes back in the byte order of the executing hardware gives `value`.
#[verifier::external_body]
fn u16_to_ne_bytes(value: u16) -> (bytes: [u8; 2])
    ensures
        word16(bytes@[0], bytes@[1], endianness()) == value,
{
    value.to_ne_bytes()
}

/// The 16-bit value whose big-endian bytes are `bytes`.
pub fn u16_from_be_bytes(bytes: [u8; 2]) -> (value: u16)
    ensures
        value == word16(bytes@[0], bytes@[1], Endian::Big),
{
    let hi = bytes[0];
    let lo = bytes[1];
    proof {
        assert(((hi as u16) << 8) | (lo as u16) == (hi as u16) * 256 + (lo as u16)) by (bit_vector);
    }
    ((hi as u16) << 8) | (lo as u16)
}

/// The first two bytes of `buf` read in native byte order.
pub fn ne_read_u16(buf: &[u8]) -> (value: u16)
    requires
        buf@.len() >= 2,
    ensures
        value == word16(buf@[0], buf@[1], endianness()),
{
    u16_from_ne_bytes([buf[0], buf[1]])
}

/// The first four bytes of `buf` read in native byte order.
pub fn ne_read_u32(buf: &[u8]) -> (value: u32)
    requires
        buf@.len() >= 4,
    ensures
        value == word32(buf@[0], buf@[1], buf@[2], buf@[3], endianness()),
{
    u32_from_ne_bytes([buf[0], buf[1], buf[2], buf[3]])
}

/// A value computed in native byte order, put back into network byte order:
/// `u16::from_be_bytes(value.to_ne_bytes())`.
pub fn ne_to_network(value: u16) -> (out: u16)
    ensures
        endianness() == Endian::Big ==> out == value,
        endianness() == Endian::Little ==> out == ((value % 256) * 256 + value / 256),
{
    let bytes = u16_to_ne_bytes(value);
    u16_from_be_bytes(bytes)
}

} // verus!
