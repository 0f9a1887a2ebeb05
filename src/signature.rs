use tiny_keccak::Hasher;
use vstd::prelude::*;

use crate::encoding::{be_value, lemma_be_value_leading_zero};
use crate::error::TxError;

verus! {

/// The Keccak-256 digest (Keccak padding, as Ethereum uses it; not SHA3-256).
pub uninterp spec fn keccak256_of(data: Seq<u8>) -> Seq<u8>;

/// The recoverable secp256k1 signature of a 32-byte digest under a secret
/// key: the recovery id and the 64-byte compact form `r || s`. Signing uses
/// the RFC 6979 nonce, so the result depends on the digest and key alone.
pub uninterp spec fn recoverable_signature_of(digest: Seq<u8>, secret_key: Seq<u8>) -> (u8, Seq<u8>);

/// Order of the secp256k1 group.
pub open spec fn curve_order() -> nat {
    0xFFFF_FFFF_FFFF_FFFF_FFFF_FFFF_FFFF_FFFE * crate::encoding::pow256(16)
        + 0xBAAE_DCE6_AF48_A03B_BFD2_5E8C_D036_4141
}

/// A secret key is 32 bytes whose big-endian value is not zero and is
/// below the curve order.
pub open spec fn is_valid_secret_key(key: Seq<u8>) -> bool {
    &&& key.len() == 32
    &&& 0 < be_value(key) < curve_order()
}

/// secp256k1's error type, as the signing wrapper returns it.
#[verifier::external_type_specification]
#[verifier::external_body]
pub struct ExSecpError(secp256k1::Error);

/// Relies on tiny_keccak's `Keccak::v256` hasher: `update` with the whole
/// input, then `finalize` into 32 bytes.
#[verifier::external_body]
pub(crate) fn keccak256(data: &[u8]) -> (r: [u8; 32])
    ensures
        r@ == keccak256_of(data@),
{
    let mut output = [0u8; 32];
    let mut hasher = tiny_keccak::Keccak::v256();
    hasher.update(data);
    hasher.finalize(&mut output);
    output
}

/// Relies on secp256k1's `SecretKey::from_slice` (an error exactly when the
/// key is not 32 bytes or `secp256k1_ec_seckey_verify` refuses it: zero, or
/// not below the curve order), `Message::from_slice` (never an error on 32
/// bytes), `Secp256k1::sign_ecdsa_recoverable` and
/// `RecoverableSignature::serialize_compact`, whose recovery id is 0 to 3.
#[verifier::external_body]
fn sign_recoverable(digest: &[u8], secret_key: &[u8]) -> (r: Result<(u8, [u8; 64]), secp256k1::Error>)
    requires
        digest@.len() == 32,
    ensures
        r is Ok <==> is_valid_secret_key(secret_key@),
        r matches Ok((id, sig)) ==> id <= 3 && (id, sig@) == recoverable_signature_of(digest@, secret_key@),
{
    let sk = secp256k1::SecretKey::from_slice(secret_key)?;
    let msg = secp256k1::Message::from_slice(digest)?;
    let secp = secp256k1::Secp256k1::signing_only();
    let (id, sig) = secp.sign_ecdsa_recoverable(&msg, &sk).serialize_compact();
    Ok((id.to_i32() as u8, sig))
}

/// `s` without leading zero bytes, down to a single byte at the least.
pub open spec fn trimmed(s: Seq<u8>) -> Seq<u8>
    decreases s.len(),
{
    if s.len() > 1 && s[0] == 0 {
        trimmed(s.subrange(1, s.len() as int))
    } else {
        s
    }
}

/// Trimming keeps the value, keeps a non-empty input non-empty, and leaves
/// no leading zero byte unless the value is zero, which stays as one zero
/// byte.
pub proof fn lemma_trimmed_minimal(s: Seq<u8>)
    ensures
        be_value(trimmed(s)) == be_value(s),
        s.len() > 0 ==> trimmed(s).len() > 0,
        trimmed(s).len() > 0 && trimmed(s)[0] == 0 ==> trimmed(s) =~= seq![0u8],
        trimmed(s).len() <= s.len(),
    decreases s.len(),
{
    if s.len() > 1 && s[0] == 0 {
        let t = s.subrange(1, s.len() as int);
        lemma_trimmed_minimal(t);
        lemma_be_value_leading_zero(s);
    } else if s.len() == 1 && s[0] == 0 {
        assert(s =~= seq![0u8]);
    }
}

/// `raw` with its leading zero bytes removed, down to a single byte at the
/// least.
pub fn trim_leading_zeros(raw: &[u8]) -> (r: Vec<u8>)
    ensures
        r@ == trimmed(raw@),
{
    let mut i: usize = 0;
    assert(raw@.subrange(0, raw@.len() as int) =~= raw@);
    while i < raw.len() && raw.len() - i > 1 && raw[i] == 0
        invariant
            i <= raw@.len(),
            raw@.len() > 0 ==> i < raw@.len(),
            trimmed(raw@) == trimmed(raw@.subrange(i as int, raw@.len() as int)),
        decreases raw.len() - i,
    {
        let ghost t = raw@.subrange(i as int, raw@.len() as int);
        assert(t.subrange(1, t.len() as int) =~= raw@.subrange(i + 1, raw@.len() as int));
        i = i + 1;
    }
    copy_range(raw, i, raw.len())
}

/// The bytes of `src` from `lo` up to `hi`.
fn copy_range(src: &[u8], lo: usize, hi: usize) -> (r: Vec<u8>)
    requires
        lo <= hi <= src@.len(),
    ensures
        r@ == src@.subrange(lo as int, hi as int),
{
    let mut out: Vec<u8> = Vec::new();
    let mut i: usize = lo;
    while i < hi
        invariant
            lo <= i <= hi <= src@.len(),
            out@ == src@.subrange(lo as int, i as int),
        decreases hi - i,
    {
        out.push(src[i]);
        assert(out@ =~= src@.subrange(lo as int, i + 1));
        i = i + 1;
    }
    out
}

/// A recoverable signature: the recovery id and the two 32-byte integers.
pub struct EcdsaSig {
    pub v: u64,
    pub r: Vec<u8>,
    pub s: Vec<u8>,
}

impl EcdsaSig {
    /// Signs the 32-byte digest `data` with `secret_key`.
    pub fn ecdsa_sign(data: &[u8], secret_key: &[u8]) -> (r: Result<EcdsaSig, TxError>)
        ensures
            r == Err::<EcdsaSig, TxError>(TxError::MalformedDigest) <==> data@.len() != 32,
            r == Err::<EcdsaSig, TxError>(TxError::InvalidSecretKey) <==> data@.len() == 32
                && !is_valid_secret_key(secret_key@),
            r is Ok <==> data@.len() == 32 && is_valid_secret_key(secret_key@),
            r matches Ok(sig) ==> {
                let (id, bytes) = recoverable_signature_of(data@, secret_key@);
                &&& bytes.len() == 64
                &&& sig.v == id as u64
                &&& sig.v <= 3
                &&& sig.r@.len() == 32
                &&& sig.s@.len() == 32
                &&& sig.r@ == bytes.subrange(0, 32)
                &&& sig.s@ == bytes.subrange(32, 64)
            },
    {
        if data.len() != 32 {
            return Err(TxError::MalformedDigest);
        }
        match sign_recoverable(data, secret_key) {
            Err(_) => Err(TxError::InvalidSecretKey),
            Ok((id, sig)) => {
                let r = copy_range(&sig, 0, 32);
                let s = copy_range(&sig, 32, 64);
                Ok(EcdsaSig { v: id as u64, r, s })
            },
        }
    }
}

} // verus!
