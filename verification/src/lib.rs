//! Verified native arithmetic, layouts and encodings of a Spartan/F2Z
//! proving stack for batched SHA-256 compressions and u128 multiplications.

pub mod sha256;
pub mod ternary;
pub mod transcript_messages;
pub mod binding;
pub mod prime;
pub mod profile;
pub mod u128_mul;
pub mod packed_rows;
pub mod sha256_checks;
pub mod u128_f2z;
pub mod witness_packing;
