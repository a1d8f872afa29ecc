//! Lossless bit-plane transform for streams of IEEE-754 samples.
//!
//! A sample is handled as its raw bit pattern (held in a `u64`); the float
//! shape (binary32 or binary64) is a type parameter implementing
//! [`ieee_float::IEEEFloat`].
pub mod bitio;
pub mod chunk;
pub mod decode;
pub mod error;
pub mod ieee_float;
pub mod varint;
