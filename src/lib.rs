//! A multi-chain token ledger built on a byte-wise 256-bit unsigned integer
//! and on address identities keyed by a BLAKE2b digest.

pub mod address;
pub mod bridge;
pub mod codec;
pub mod error;
pub mod table;
pub mod u256;
