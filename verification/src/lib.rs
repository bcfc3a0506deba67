//! A verified bit-level stream reader for decoding binary-coded values from
//! bytes: fixed-width unsigned fields read most-significant-bit first, and a
//! minimal-redundancy variable-length code for values in a bounded range.

pub mod bits;
pub mod bitio;
pub mod props;

pub use bitio::{BitError, BitReader, FromU32};
