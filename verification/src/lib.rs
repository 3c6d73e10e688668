//! Golomb codes over an abstract bit stream.
//!
//! Given a modulus `b >= 1`, the Golomb code of a value `x` is the unary code
//! of the quotient `x / b` followed by the minimal binary (truncated binary)
//! code of the remainder `x % b` under modulus `b`. The crate models both
//! sub-codes as sequences of bits, proves that the composed code is uniquely
//! decodable and has an exactly computable length, and offers the encoder and
//! decoder as traits over any bit sink or source, together with a vector-backed
//! sink and source.

pub mod bit_vec;
pub mod golomb;
pub mod minimal_binary;
pub mod model;
pub mod traits;
