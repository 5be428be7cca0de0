//! Implementations of the RFC 1071 Internet checksum (without the final
//! complement), each proved to compute the same ones-complement sum.
pub mod bytes;
pub mod fold;
pub mod lanes;
pub mod laws;
pub mod lemmas;
pub mod model;
pub mod variants;

pub use crate::fold::{add_assign_with_carry_u32, propagate_carries};
pub use crate::variants::{
    checksum_chunks_exact, checksum_chunks_exact_no_bigchunk, checksum_chunks_ne_sep,
    checksum_chunks_ne_u16, checksum_chunks_ne_u16_unroll, checksum_indexed, checksum_original,
    checksum_sliced_ne, checksum_sliced_ne_sep, checksum_sliced_ne_sep_unroll,
    checksum_sliced_ne_u16, checksum_sliced_ne_u16_unroll, checksum_wide,
};
