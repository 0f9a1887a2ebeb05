use vstd::prelude::*;

verus! {

/// Why a transaction could not be built or signed.
#[derive(Debug, Clone, Copy, PartialEq, Eq, Structural)]
pub enum TxError {
    /// A destination address that is neither absent (empty) nor 20 bytes.
    InvalidAddressLength,
    /// A digest to sign that is not 32 bytes.
    MalformedDigest,
    /// A secret key that is not 32 bytes, is zero, or is not below the
    /// curve order.
    InvalidSecretKey,
    /// The transaction already holds a signature.
    AlreadySigned,
}

} // verus!
