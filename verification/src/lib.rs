//! Systematic Reed-Solomon encoding over the finite field GF(2^8).
//!
//! The crate is layered bottom-up: a table-driven field engine
//! ([`gf2_8::GF2k`]), a single-value wrapper ([`ff::FieldElement`]),
//! polynomial algebra over field elements ([`polynomial::Polynomial`]),
//! and the codec itself ([`reedsolomon::ReedSolomon`]), which builds a
//! generator polynomial once and then encodes messages into codewords
//! divisible by it and checks candidate codewords for that divisibility.

pub mod errors;
pub mod ff;
pub mod gf2_8;
pub mod polynomial;
pub mod reedsolomon;

pub use errors::Errors;
pub use ff::FieldElement;
pub use gf2_8::GF2k;
pub use polynomial::Polynomial;
pub use reedsolomon::ReedSolomon;
