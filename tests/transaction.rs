use eth_legacy_tx::{
    encode_bytes, encode_list, encode_uint, replay_protected_v, trim_leading_zeros, uint_be_bytes,
    EcdsaSig, LegacyTransaction, TxError,
};

const ETH_CHAIN_ID: u64 = 1;

const TEST_KEY: &str = "4646464646464646464646464646464646464646464646464646464646464646";

const UNSIGNED_FIXTURE: &str =
    "ec098504a817c800825208943535353535353535353535353535353535353535880de0b6b3a764000080018080";

const SIGNING_HASH: &str = "daf5a779ae972f972197303d7b574746c7ef83eadac0f2791ad23db92e4c8e53";

const SIGNED_FIXTURE: &str = "f86c098504a817c800825208943535353535353535353535353535353535353535880de0b6b3a76400008025a028ef61340bd939bc2195fe537567866003e1a15d3c71ff63e1590620aa636276a067cbe9d8997f761aecb703304b3800ccf555c9f3dc64214b297fb1966a3b6d83";

fn fixture_transaction() -> LegacyTransaction {
    let nonce = u128::from_str_radix("9", 16).unwrap();
    let gas_price = u128::from_str_radix("4a817c800", 16).unwrap();
    let gas_limit = u128::from_str_radix("5208", 16).unwrap();
    let to = hex::decode("3535353535353535353535353535353535353535").unwrap();
    let value = u128::from_str_radix("de0b6b3a7640000", 16).unwrap();
    let data = vec![];
    LegacyTransaction::new(nonce, gas_price, gas_limit, to, value, data, ETH_CHAIN_ID).unwrap()
}

#[test]
fn test_rlp_encode_txn() {
    let txn = fixture_transaction();
    let encoded = txn.rlp_encode();
    println!("{:?}", encoded);
    assert_eq!(hex::encode(&encoded), UNSIGNED_FIXTURE);
}

#[test]
fn test_sign_legacy_txns() {
    let mut txn = fixture_transaction();
    let sk = hex::decode(TEST_KEY).unwrap();
    assert_eq!(sk.len(), 32);
    let signed = txn.sign(&sk).unwrap();
    assert_eq!(hex::encode(&signed), SIGNED_FIXTURE);
}

#[test]
fn signed_fixture_starts_and_ends_as_expected() {
    let mut txn = fixture_transaction();
    let signed = txn.sign(&hex::decode(TEST_KEY).unwrap()).unwrap();
    assert_eq!(signed.len(), 110);
    assert_eq!(&signed[..13], &[248, 108, 9, 133, 4, 168, 23, 200, 0, 130, 82, 8, 148]);
    assert_eq!(signed[13], 53);
    assert_eq!(signed[109], 131);
    assert_eq!(txn.v, 37);
    assert_eq!(txn.r, hex::decode("28ef61340bd939bc2195fe537567866003e1a15d3c71ff63e1590620aa636276").unwrap());
    assert_eq!(txn.s, hex::decode("67cbe9d8997f761aecb703304b3800ccf555c9f3dc64214b297fb1966a3b6d83").unwrap());
    assert_eq!(txn.chain_id, 1);
    assert_eq!(txn.nonce, 9);
}

#[test]
fn ecdsa_sign_of_fixture_digest() {
    let digest = hex::decode(SIGNING_HASH).unwrap();
    let sig = EcdsaSig::ecdsa_sign(&digest, &hex::decode(TEST_KEY).unwrap()).unwrap();
    assert_eq!(sig.v, 0);
    assert_eq!(sig.r, hex::decode("28ef61340bd939bc2195fe537567866003e1a15d3c71ff63e1590620aa636276").unwrap());
    assert_eq!(sig.s, hex::decode("67cbe9d8997f761aecb703304b3800ccf555c9f3dc64214b297fb1966a3b6d83").unwrap());
}

#[test]
fn ecdsa_sign_refuses_short_digest() {
    let digest = vec![1u8; 31];
    let r = EcdsaSig::ecdsa_sign(&digest, &hex::decode(TEST_KEY).unwrap());
    assert!(matches!(r, Err(TxError::MalformedDigest)));
}

#[test]
fn ecdsa_sign_refuses_bad_keys() {
    let digest = hex::decode(SIGNING_HASH).unwrap();
    let zero = vec![0u8; 32];
    assert!(matches!(EcdsaSig::ecdsa_sign(&digest, &zero), Err(TxError::InvalidSecretKey)));
    let order = hex::decode("fffffffffffffffffffffffffffffffebaaedce6af48a03bbfd25e8cd0364141").unwrap();
    assert!(matches!(EcdsaSig::ecdsa_sign(&digest, &order), Err(TxError::InvalidSecretKey)));
    let below = hex::decode("fffffffffffffffffffffffffffffffebaaedce6af48a03bbfd25e8cd0364140").unwrap();
    assert!(EcdsaSig::ecdsa_sign(&digest, &below).is_ok());
    let short = vec![0x46u8; 31];
    assert!(matches!(EcdsaSig::ecdsa_sign(&digest, &short), Err(TxError::InvalidSecretKey)));
}

#[test]
fn sign_refuses_invalid_key_and_keeps_record() {
    let mut txn = fixture_transaction();
    let r = txn.sign(&[0u8; 32]);
    assert_eq!(r, Err(TxError::InvalidSecretKey));
    assert!(txn.is_unsigned());
    assert_eq!(hex::encode(txn.rlp_encode()), UNSIGNED_FIXTURE);
}

#[test]
fn sign_twice_is_refused() {
    let mut txn = fixture_transaction();
    let key = hex::decode(TEST_KEY).unwrap();
    let first = txn.sign(&key).unwrap();
    assert!(!txn.is_unsigned());
    assert_eq!(txn.sign(&key), Err(TxError::AlreadySigned));
    assert_eq!(txn.rlp_encode(), first);
}

#[test]
fn new_refuses_bad_address_length() {
    let r = LegacyTransaction::new(1, 1, 1, vec![0x35; 19], 1, vec![], 1);
    assert!(matches!(r, Err(TxError::InvalidAddressLength)));
    let r = LegacyTransaction::new(1, 1, 1, vec![0x35; 21], 1, vec![], 1);
    assert!(matches!(r, Err(TxError::InvalidAddressLength)));
}

#[test]
fn new_starts_unsigned() {
    let txn = LegacyTransaction::new(10, 10, 10, vec![0x11; 20], 10, vec![1, 2], 4).unwrap();
    assert!(txn.is_unsigned());
    assert_eq!(txn.v, 4);
    assert_eq!(txn.r, vec![0]);
    assert_eq!(txn.s, vec![0]);
    assert_eq!(txn.to, Some([0x11; 20]));
}

#[test]
fn contract_creation_encodes_empty_destination() {
    let txn = LegacyTransaction::new(0, 0, 0, vec![], 0, vec![], 1).unwrap();
    assert_eq!(txn.to, None);
    assert_eq!(txn.rlp_encode(), vec![0xc9, 0x80, 0x80, 0x80, 0x80, 0x80, 0x80, 0x01, 0x80, 0x80]);
}

#[test]
fn encoding_is_repeatable() {
    let a = fixture_transaction();
    let b = fixture_transaction();
    assert_eq!(a.rlp_encode(), a.rlp_encode());
    assert_eq!(a.rlp_encode(), b.rlp_encode());
}

#[test]
fn unsigned_encoding_unchanged_by_no_op() {
    let txn = fixture_transaction();
    let before = txn.rlp_encode();
    let moved = txn;
    assert!(moved.is_unsigned());
    assert_eq!(moved.rlp_encode(), before);
}

#[test]
fn encode_dog() {
    let encoded = encode_bytes(b"dog");
    assert_eq!(hex::encode(&encoded), "83646f67");
    let decoded: String = rlp::decode(&encoded).unwrap();
    assert_eq!(decoded, "dog");
}

#[test]
fn encode_single_bytes_and_empty() {
    assert_eq!(encode_bytes(&[]), vec![0x80]);
    assert_eq!(encode_bytes(&[0x00]), vec![0x00]);
    assert_eq!(encode_bytes(&[0x7f]), vec![0x7f]);
    assert_eq!(encode_bytes(&[0x80]), vec![0x81, 0x80]);
}

#[test]
fn encode_long_strings() {
    let s55 = vec![0xaau8; 55];
    let e55 = encode_bytes(&s55);
    assert_eq!(e55[0], 0xb7);
    assert_eq!(e55.len(), 56);
    let s56 = vec![0xaau8; 56];
    let e56 = encode_bytes(&s56);
    assert_eq!(&e56[..2], &[0xb8, 56]);
    assert_eq!(e56.len(), 58);
    let s1024 = vec![0x01u8; 1024];
    let e1024 = encode_bytes(&s1024);
    assert_eq!(&e1024[..3], &[0xb9, 0x04, 0x00]);
    assert_eq!(e1024.len(), 1027);
    let back: Vec<u8> = rlp::decode(&e1024).unwrap();
    assert_eq!(back, s1024);
}

#[test]
fn encode_integers() {
    assert_eq!(encode_uint(0), vec![0x80]);
    assert_eq!(encode_uint(15), vec![0x0f]);
    assert_eq!(encode_uint(127), vec![0x7f]);
    assert_eq!(encode_uint(128), vec![0x81, 0x80]);
    assert_eq!(encode_uint(1024), vec![0x82, 0x04, 0x00]);
    let mut max = vec![0x90u8];
    max.extend_from_slice(&[0xff; 16]);
    assert_eq!(encode_uint(u128::MAX), max);
    assert_eq!(encode_uint(1024), rlp::encode(&1024u64).to_vec());
}

#[test]
fn minimal_integer_bytes() {
    assert_eq!(uint_be_bytes(0), Vec::<u8>::new());
    assert_eq!(uint_be_bytes(1), vec![1]);
    assert_eq!(uint_be_bytes(256), vec![1, 0]);
    assert_eq!(uint_be_bytes(0x4a817c800), vec![0x04, 0xa8, 0x17, 0xc8, 0x00]);
    for n in [1u128, 255, 256, 65535, 1 << 64, u128::MAX] {
        let b = uint_be_bytes(n);
        assert_ne!(b[0], 0);
    }
}

#[test]
fn encode_lists() {
    assert_eq!(encode_list(&[]), vec![0xc0]);
    let cat = encode_bytes(b"cat");
    let dog = encode_bytes(b"dog");
    let mut payload = cat.clone();
    payload.extend_from_slice(&dog);
    assert_eq!(hex::encode(encode_list(&payload)), "c88363617483646f67");
    let long = vec![0x01u8; 60];
    let e = encode_list(&long);
    assert_eq!(&e[..2], &[0xf8, 60]);
    assert_eq!(e.len(), 62);
}

#[test]
fn signed_encoding_decodes_to_fields() {
    let mut txn = fixture_transaction();
    let signed = txn.sign(&hex::decode(TEST_KEY).unwrap()).unwrap();
    let list = rlp::Rlp::new(&signed);
    assert!(list.is_list());
    assert_eq!(list.item_count().unwrap(), 9);
    let nonce: u64 = list.val_at(0).unwrap();
    assert_eq!(nonce, 9);
    let gas_price: u64 = list.val_at(1).unwrap();
    assert_eq!(gas_price, 0x4a817c800);
    let to: Vec<u8> = list.val_at(3).unwrap();
    assert_eq!(to, vec![0x35; 20]);
    let data: Vec<u8> = list.val_at(5).unwrap();
    assert!(data.is_empty());
    let v: u64 = list.val_at(6).unwrap();
    assert_eq!(v, 37);
    let r: Vec<u8> = list.val_at(7).unwrap();
    assert_eq!(r, txn.r);
}

#[test]
fn trimming_leading_zeros() {
    assert_eq!(trim_leading_zeros(&[0, 0, 1, 0]), vec![1, 0]);
    assert_eq!(trim_leading_zeros(&[0u8; 32]), vec![0]);
    assert_eq!(trim_leading_zeros(&[7, 0]), vec![7, 0]);
    assert_eq!(trim_leading_zeros(&[]), Vec::<u8>::new());
    let mut raw = [0u8; 32];
    raw[31] = 5;
    assert_eq!(trim_leading_zeros(&raw), vec![5]);
}

#[test]
fn apply_signature_trims_and_protects_v() {
    let mut txn = LegacyTransaction::new(1, 2, 3, vec![0x22; 20], 4, vec![], 5).unwrap();
    let mut r = vec![0u8; 32];
    r[1] = 0x12;
    let s = vec![0x34u8; 32];
    let sig = EcdsaSig { v: 1, r: r.clone(), s: s.clone() };
    let out = txn.apply_signature(&sig);
    assert_eq!(txn.v, 1 + 5 * 2 + 35);
    assert_eq!(txn.r, r[1..].to_vec());
    assert_eq!(txn.s, s);
    assert_eq!(out, txn.rlp_encode());
}

#[test]
fn replay_protected_values() {
    assert_eq!(replay_protected_v(0, 1), 37);
    assert_eq!(replay_protected_v(1, 1), 38);
    assert_eq!(replay_protected_v(0, 4), 43);
    assert_eq!(replay_protected_v(1, 4), 44);
    assert_eq!(replay_protected_v(1, u64::MAX), 1 + (u64::MAX as u128) * 2 + 35);
}
