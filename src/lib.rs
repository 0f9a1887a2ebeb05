//! Construction, canonical encoding and signing of legacy Ethereum
//! transactions.
//!
//! The canonical encoding (recursive-length prefix) is written and proved
//! here; Keccak-256 and recoverable secp256k1 signing are called from their
//! crates.
pub mod encoding;
pub mod error;
pub mod signature;
pub mod transaction;

pub use encoding::{encode_bytes, encode_list, encode_uint, uint_be_bytes};
pub use error::TxError;
pub use signature::{trim_leading_zeros, EcdsaSig};
pub use transaction::{replay_protected_v, LegacyTransaction};
