//! Deterministic derivation of PIN records for a fixed set of token readers.
//!
//! The serial numbers of the readers are expanded into a pseudo-random buffer
//! by chained SHA-512 hashing, the buffer is turned into unbiased two-digit
//! values by rejection sampling, and the values are packed into framed PIN
//! records.

pub mod error;
pub mod hashing;
pub mod pin;
pub mod pin_set;
pub mod stream;
