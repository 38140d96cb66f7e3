//! Reed-Solomon error-correction codeword generation over GF(256).
//!
//! The field is GF(2^8) under the primitive polynomial 0x11d. Addition is
//! bitwise XOR; multiplication goes through discrete-log and exponent tables
//! built from the powers of the primitive element. On top of the field sit
//! polynomial multiplication and long division, the monic generator
//! polynomial, and the encoder that returns the redundancy bytes.

pub mod encode;
pub mod galois;
pub mod poly;

pub use encode::{create_generator_polynomial, generate_error_correction_codewords};
