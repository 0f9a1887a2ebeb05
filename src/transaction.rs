use vstd::prelude::*;

use crate::encoding::{
    append_bytes, append_uint, append_uint_bytes, be_bytes, be_value, concat_encodings,
    decode_items, decode_list, encode_list, lemma_be_bytes_minimal, lemma_concat_len,
    lemma_concat_step, lemma_items_round_trip, lemma_list_round_trip, lemma_stripped,
    list_encoding, pow256, string_encoding, stripped, uint_encoding,
};
use crate::error::TxError;
use crate::signature::{
    is_valid_secret_key, keccak256, keccak256_of, lemma_trimmed_minimal, recoverable_signature_of,
    trim_leading_zeros, trimmed, EcdsaSig,
};

verus! {

/// A legacy (pre-fee-market) transaction, before or after signing.
///
/// Before signing `v` holds the chain id and `r`, `s` hold one zero byte
/// each; signing replaces the three with the replay-protected recovery
/// value and the minimal bytes of the signature's two integers.
pub struct LegacyTransaction {
    pub nonce: u128,
    pub gas_price: u128,
    pub gas_limit: u128,
    /// The destination; absent for a contract creation.
    pub to: Option<[u8; 20]>,
    pub value: u128,
    pub data: Vec<u8>,
    /// The network the transaction is meant for.
    pub chain_id: u64,
    pub v: u128,
    pub r: Vec<u8>,
    pub s: Vec<u8>,
}

/// The bytes that stand for the destination: none for a contract creation.
pub open spec fn to_bytes(to: Option<[u8; 20]>) -> Seq<u8> {
    match to {
        Some(a) => a@,
        None => Seq::empty(),
    }
}

/// The encoded fields, in order: nonce, gas price, gas limit, destination,
/// value, data, v, r, s; `r` and `s` as the integers they stand for.
pub open spec fn transaction_payload(t: LegacyTransaction) -> Seq<u8> {
    uint_encoding(t.nonce as nat) + uint_encoding(t.gas_price as nat) + uint_encoding(
        t.gas_limit as nat,
    ) + string_encoding(to_bytes(t.to)) + uint_encoding(t.value as nat) + string_encoding(t.data@)
        + uint_encoding(t.v as nat) + string_encoding(stripped(t.r@)) + string_encoding(stripped(t.s@))
}

/// The canonical encoding of a transaction: its fields as one list.
pub open spec fn transaction_encoding(t: LegacyTransaction) -> Seq<u8> {
    list_encoding(transaction_payload(t))
}

/// The replay-protected recovery value.
pub open spec fn protected_v(recovery_id: nat, chain_id: nat) -> nat {
    recovery_id + chain_id * 2 + 35
}

/// Not yet signed: `v` is the chain id and `r`, `s` are one zero byte each.
pub open spec fn is_unsigned_state(t: LegacyTransaction) -> bool {
    &&& t.v == t.chain_id as u128
    &&& t.r@ == seq![0u8]
    &&& t.s@ == seq![0u8]
}

/// Bytes of a stored signature integer: at least one byte, and no leading
/// zero byte unless the value is zero, kept as a single zero byte.
pub open spec fn is_minimal_component(b: Seq<u8>) -> bool {
    &&& b.len() > 0
    &&& (b[0] != 0 || b == seq![0u8])
}

/// Signed: `v` is the replay-protected value of some recovery id (0 to 3),
/// and `r` and `s` are non-empty with no leading zero byte. A signed record is never
/// unsigned.
pub open spec fn is_signed_state(t: LegacyTransaction) -> bool {
    &&& t.chain_id as u128 * 2 + 35 <= t.v <= t.chain_id as u128 * 2 + 38
    &&& is_minimal_component(t.r@)
    &&& is_minimal_component(t.s@)
    &&& !is_unsigned_state(t)
}

/// `after` is `before` with the signature fields filled from the recovery id
/// and the 64 bytes `r || s`.
pub open spec fn signed_from(
    before: LegacyTransaction,
    after: LegacyTransaction,
    recovery_id: nat,
    r: Seq<u8>,
    s: Seq<u8>,
) -> bool {
    &&& after.nonce == before.nonce
    &&& after.gas_price == before.gas_price
    &&& after.gas_limit == before.gas_limit
    &&& after.to == before.to
    &&& after.value == before.value
    &&& after.data@ == before.data@
    &&& after.chain_id == before.chain_id
    &&& after.v as nat == protected_v(recovery_id, before.chain_id as nat)
    &&& after.r@ == trimmed(r)
    &&& after.s@ == trimmed(s)
}

/// The fields as byte strings, in encoding order; integers as their
/// minimal big-endian bytes.
pub open spec fn transaction_fields(t: LegacyTransaction) -> Seq<Seq<u8>> {
    seq![
        be_bytes(t.nonce as nat),
        be_bytes(t.gas_price as nat),
        be_bytes(t.gas_limit as nat),
        to_bytes(t.to),
        be_bytes(t.value as nat),
        t.data@,
        be_bytes(t.v as nat),
        stripped(t.r@),
        stripped(t.s@),
    ]
}

/// Two records whose fields hold the same values.
pub open spec fn same_fields(a: LegacyTransaction, b: LegacyTransaction) -> bool {
    &&& a.nonce == b.nonce
    &&& a.gas_price == b.gas_price
    &&& a.gas_limit == b.gas_limit
    &&& a.to == b.to
    &&& a.value == b.value
    &&& a.data@ == b.data@
    &&& a.chain_id == b.chain_id
    &&& a.v == b.v
    &&& a.r@ == b.r@
    &&& a.s@ == b.s@
}

/// Records with the same field values have byte-identical encodings.
pub proof fn lemma_encoding_deterministic(a: LegacyTransaction, b: LegacyTransaction)
    requires
        same_fields(a, b),
    ensures
        transaction_encoding(a) == transaction_encoding(b),
{
}

/// An unsigned record that is left as it is encodes to the same bytes
/// again, and is still unsigned.
pub proof fn lemma_unsigned_encoding_stable(before: LegacyTransaction, after: LegacyTransaction)
    requires
        is_unsigned_state(before),
        same_fields(before, after),
    ensures
        is_unsigned_state(after),
        transaction_encoding(after) == transaction_encoding(before),
{
}

/// The payload is the fields' encodings one after another.
proof fn lemma_payload_is_concat(t: LegacyTransaction)
    ensures
        concat_encodings(transaction_fields(t)) == transaction_payload(t),
{
    let f = transaction_fields(t);
    assert(f.subrange(9, 9) =~= Seq::<Seq<u8>>::empty());
    lemma_concat_step(f, 8);
    lemma_concat_step(f, 7);
    lemma_concat_step(f, 6);
    lemma_concat_step(f, 5);
    lemma_concat_step(f, 4);
    lemma_concat_step(f, 3);
    lemma_concat_step(f, 2);
    lemma_concat_step(f, 1);
    lemma_concat_step(f, 0);
    assert(f.subrange(0, 9) =~= f);
    lemma_assoc9(
        uint_encoding(t.nonce as nat),
        uint_encoding(t.gas_price as nat),
        uint_encoding(t.gas_limit as nat),
        string_encoding(to_bytes(t.to)),
        uint_encoding(t.value as nat),
        string_encoding(t.data@),
        uint_encoding(t.v as nat),
        string_encoding(stripped(t.r@)),
        string_encoding(stripped(t.s@)),
    );
}

/// Nine pieces concatenated from the right are the same pieces
/// concatenated from the left.
proof fn lemma_assoc9(
    e0: Seq<u8>,
    e1: Seq<u8>,
    e2: Seq<u8>,
    e3: Seq<u8>,
    e4: Seq<u8>,
    e5: Seq<u8>,
    e6: Seq<u8>,
    e7: Seq<u8>,
    e8: Seq<u8>,
)
    ensures
        e0 + (e1 + (e2 + (e3 + (e4 + (e5 + (e6 + (e7 + (e8 + Seq::<u8>::empty())))))))) == e0 + e1
            + e2 + e3 + e4 + e5 + e6 + e7 + e8,
{
    assert(e7 + (e8 + Seq::<u8>::empty()) =~= e7 + e8);
    assert(e6 + (e7 + e8) =~= e6 + e7 + e8);
    assert(e5 + (e6 + e7 + e8) =~= e5 + e6 + e7 + e8);
    assert(e4 + (e5 + e6 + e7 + e8) =~= e4 + e5 + e6 + e7 + e8);
    assert(e3 + (e4 + e5 + e6 + e7 + e8) =~= e3 + e4 + e5 + e6 + e7 + e8);
    assert(e2 + (e3 + e4 + e5 + e6 + e7 + e8) =~= e2 + e3 + e4 + e5 + e6 + e7 + e8);
    assert(e1 + (e2 + e3 + e4 + e5 + e6 + e7 + e8) =~= e1 + e2 + e3 + e4 + e5 + e6 + e7 + e8);
    assert(e0 + (e1 + e2 + e3 + e4 + e5 + e6 + e7 + e8) =~= e0 + e1 + e2 + e3 + e4 + e5 + e6 + e7
        + e8);
}

/// No field is longer than the payload that holds it.
proof fn lemma_field_len_bound(t: LegacyTransaction, i: int)
    requires
        0 <= i < 9,
        transaction_payload(t).len() < pow256(8),
    ensures
        transaction_fields(t)[i].len() < pow256(8),
{
    let f = transaction_fields(t);
    lemma_payload_is_concat(t);
    lemma_concat_len(f, i);
}

/// Decoding a transaction's encoding gives back its payload, the payload
/// splits into exactly the fields in order, and the integer fields read
/// back as their values.
pub proof fn lemma_transaction_round_trip(t: LegacyTransaction)
    requires
        transaction_payload(t).len() < pow256(8),
    ensures
        decode_list(transaction_encoding(t)) == Some(transaction_payload(t)),
        decode_items(transaction_payload(t)) == Some(transaction_fields(t)),
        be_value(transaction_fields(t)[0]) == t.nonce,
        be_value(transaction_fields(t)[1]) == t.gas_price,
        be_value(transaction_fields(t)[2]) == t.gas_limit,
        be_value(transaction_fields(t)[4]) == t.value,
        be_value(transaction_fields(t)[6]) == t.v,
        be_value(transaction_fields(t)[7]) == be_value(t.r@),
        be_value(transaction_fields(t)[8]) == be_value(t.s@),
{
    let f = transaction_fields(t);
    lemma_list_round_trip(transaction_payload(t));
    lemma_payload_is_concat(t);
    assert forall|i: int| 0 <= i < f.len() implies #[trigger] f[i].len() < pow256(8) by {
        lemma_field_len_bound(t, i);
    }
    lemma_items_round_trip(f);
    lemma_be_bytes_minimal(t.nonce as nat);
    lemma_be_bytes_minimal(t.gas_price as nat);
    lemma_be_bytes_minimal(t.gas_limit as nat);
    lemma_be_bytes_minimal(t.value as nat);
    lemma_be_bytes_minimal(t.v as nat);
    lemma_stripped(t.r@);
    lemma_stripped(t.s@);
}

/// For a recovery id of 0 or 1, the replay-protected value is the chain id
/// doubled plus 35 or 36, and never the chain id itself, so a signed record
/// is never taken for an unsigned one.
pub proof fn lemma_protected_v(recovery_id: nat, chain_id: nat)
    requires
        recovery_id <= 1,
    ensures
        protected_v(recovery_id, chain_id) == chain_id * 2 + 35 + recovery_id,
        protected_v(recovery_id, chain_id) != chain_id,
{
}

/// The replay-protected recovery value for `recovery_id` on `chain_id`.
pub fn replay_protected_v(recovery_id: u64, chain_id: u64) -> (r: u128)
    ensures
        r as nat == protected_v(recovery_id as nat, chain_id as nat),
{
    recovery_id as u128 + chain_id as u128 * 2 + 35
}

impl LegacyTransaction {
    /// A new unsigned transaction. An empty `to` makes a contract creation;
    /// any other length than 20 bytes is refused.
    pub fn new(
        nonce: u128,
        gas_price: u128,
        gas_limit: u128,
        to: Vec<u8>,
        value: u128,
        data: Vec<u8>,
        chain_id: u64,
    ) -> (r: Result<Self, TxError>)
        ensures
            r is Err <==> to@.len() != 0 && to@.len() != 20,
            r is Err ==> r == Err::<Self, TxError>(TxError::InvalidAddressLength),
            r matches Ok(t) ==> {
                &&& t.nonce == nonce
                &&& t.gas_price == gas_price
                &&& t.gas_limit == gas_limit
                &&& to_bytes(t.to) == to@
                &&& t.value == value
                &&& t.data@ == data@
                &&& t.chain_id == chain_id
                &&& is_unsigned_state(t)
            },
    {
        let dest: Option<[u8; 20]> = if to.len() == 0 {
            assert(to@ =~= Seq::<u8>::empty());
            None
        } else if to.len() == 20 {
            let mut a = [0u8; 20];
            let mut i: usize = 0;
            while i < 20
                invariant
                    to@.len() == 20,
                    0 <= i <= 20,
                    forall|j: int| 0 <= j < i ==> a@[j] == to@[j],
                decreases 20 - i,
            {
                a[i] = to[i];
                i = i + 1;
            }
            assert(a@ =~= to@);
            Some(a)
        } else {
            return Err(TxError::InvalidAddressLength);
        };
        let r: Vec<u8> = vec![0u8];
        let s: Vec<u8> = vec![0u8];
        assert(r@ =~= seq![0u8] && s@ =~= seq![0u8]);
        Ok(LegacyTransaction {
            nonce,
            gas_price,
            gas_limit,
            to: dest,
            value,
            data,
            chain_id,
            v: chain_id as u128,
            r,
            s,
        })
    }

    /// Whether the transaction is still unsigned.
    pub fn is_unsigned(&self) -> (r: bool)
        ensures
            r == is_unsigned_state(*self),
    {
        let r_zero = self.r.len() == 1 && self.r[0] == 0;
        let s_zero = self.s.len() == 1 && self.s[0] == 0;
        proof {
            if r_zero {
                assert(self.r@ =~= seq![0u8]);
            }
            if s_zero {
                assert(self.s@ =~= seq![0u8]);
            }
        }
        self.v == self.chain_id as u128 && r_zero && s_zero
    }

    /// The canonical encoding of the transaction's fields.
    pub fn rlp_encode(&self) -> (r: Vec<u8>)
        ensures
            r@ == transaction_encoding(*self),
    {
        let mut payload: Vec<u8> = Vec::new();
        append_uint(&mut payload, self.nonce);
        append_uint(&mut payload, self.gas_price);
        append_uint(&mut payload, self.gas_limit);
        match &self.to {
            Some(a) => append_bytes(&mut payload, a),
            None => append_bytes(&mut payload, &[]),
        }
        append_uint(&mut payload, self.value);
        append_bytes(&mut payload, self.data.as_slice());
        append_uint(&mut payload, self.v);
        append_uint_bytes(&mut payload, self.r.as_slice());
        append_uint_bytes(&mut payload, self.s.as_slice());
        assert(payload@ =~= transaction_payload(*self));
        encode_list(payload.as_slice())
    }

    /// Fills the signature fields from `sig` and returns the signed
    /// encoding. `sig` is as the signer gives it: a recovery id of at most 3
    /// and non-empty `r` and `s`.
    pub fn apply_signature(&mut self, sig: &EcdsaSig) -> (r: Vec<u8>)
        requires
            sig.v <= 3,
            sig.r@.len() > 0,
            sig.s@.len() > 0,
        ensures
            signed_from(*old(self), *final(self), sig.v as nat, sig.r@, sig.s@),
            is_signed_state(*final(self)),
            r@ == transaction_encoding(*final(self)),
    {
        self.v = replay_protected_v(sig.v, self.chain_id);
        self.r = trim_leading_zeros(sig.r.as_slice());
        self.s = trim_leading_zeros(sig.s.as_slice());
        proof {
            lemma_trimmed_minimal(sig.r@);
            lemma_trimmed_minimal(sig.s@);
        }
        self.rlp_encode()
    }

    /// Signs the unsigned transaction with `secret_key` and returns the
    /// signed encoding. The signature is over the Keccak-256 digest of the
    /// unsigned encoding. On an error the transaction is left as it was.
    pub fn sign(&mut self, secret_key: &[u8]) -> (r: Result<Vec<u8>, TxError>)
        ensures
            r == Err::<Vec<u8>, TxError>(TxError::AlreadySigned) <==> !is_unsigned_state(*old(self)),
            r == Err::<Vec<u8>, TxError>(TxError::InvalidSecretKey) <==> is_unsigned_state(*old(self))
                && !is_valid_secret_key(secret_key@),
            r is Ok <==> is_unsigned_state(*old(self)) && is_valid_secret_key(secret_key@),
            r is Err ==> *final(self) == *old(self),
            r matches Ok(bytes) ==> {
                let digest = keccak256_of(transaction_encoding(*old(self)));
                let (id, sig) = recoverable_signature_of(digest, secret_key@);
                &&& id <= 3
                &&& signed_from(*old(self), *final(self), id as nat, sig.subrange(0, 32), sig.subrange(32, 64))
                &&& is_signed_state(*final(self))
                &&& bytes@ == transaction_encoding(*final(self))
            },
    {
        if !self.is_unsigned() {
            return Err(TxError::AlreadySigned);
        }
        let encoded = self.rlp_encode();
        let digest = keccak256(encoded.as_slice());
        match EcdsaSig::ecdsa_sign(&digest, secret_key) {
            Err(e) => Err(e),
            Ok(sig) => Ok(self.apply_signature(&sig)),
        }
    }
}

} // verus!
