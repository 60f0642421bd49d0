//! Homomorphic integer arithmetic over small encrypted digits.
//!
//! An integer is held as a sequence of digit ciphertexts, each with a tracked
//! degree: an upper bound on the plaintext the digit may currently hold. The
//! crate composes digits into radix and residue (CRT) integers, decides from
//! the degrees when a digit has to be refreshed, and propagates carries, one
//! digit after the other or by a carry-lookahead scan.
//!
//! Table lookups are what an operation costs. A meter counts them, and every
//! digit records its depth, the longest chain of lookups behind it: both
//! depend on the numbers and degrees of the digits alone, never on what the
//! digits hold.
pub mod arithmetic;
pub mod ciphertext;
pub mod client_key;
pub mod comparator;
pub mod crt;
pub mod crt_radix;
pub mod lookahead;
pub mod mul;
pub mod number_theory;
pub mod radix;
pub mod radix_parallel;
pub mod server_key;
pub mod shortint;
pub mod sub;
pub mod tables;

pub use ciphertext::{MalformedInteger, RadixCiphertext};
pub use comparator::Comparison;
pub use crt::CrtCiphertext;
pub use client_key::{ClientContext, ClientKey};
pub use server_key::{CheckError, ServerKey};

