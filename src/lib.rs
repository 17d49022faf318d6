//! Base67: a reversible text encoding of binary data over a 67-symbol
//! alphabet. Three bytes become four symbols; a shorter final chunk is
//! padded with `=`.
//!
//! `encode` and `decode` are proved against the models `spec_encode` and
//! `spec_decode`; the module `laws` proves what holds of the pair.

pub mod alphabet;
pub mod decode;
pub mod digits;
pub mod encode;
pub mod laws;

pub use decode::{decode, DecodeError};
pub use encode::encode;
