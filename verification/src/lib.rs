//! A static-model arithmetic coder over decimal digits.
//!
//! A byte sequence is compressed against a per-input frequency model into a
//! stream of decimal digits that ends with the last lower bound of the
//! coding range, and the stream is expanded back into the same bytes. All
//! interval arithmetic is exact integer arithmetic.

pub mod arithmetic_encoder;
pub mod cli;
pub mod codebook;
pub mod cumulative;
pub mod decoder;
pub mod encoder;
pub mod error;
pub mod header;
pub mod laws;
pub mod model;
pub mod probability;
pub mod radix;
pub mod range;
pub mod roundtrip;
