use sha2::Digest;

use twit::payload::encode_payload;
use twit::transaction_utils::{
    create_batch_header, create_batch_list, create_batch_list_with_signer, create_txn_header,
    serialize_batch_header, serialize_batch_list, serialize_txn_header, verify_signature,
    BatchHeader, Signer, Transaction,
};

fn test_signer() -> Signer {
    Signer::from_private_key(vec![1u8; 32]).unwrap()
}

fn txn_with_signature(sig: &str) -> Transaction {
    Transaction {
        header: vec![1, 2, 3],
        header_signature: sig.to_string(),
        payload: vec![9],
    }
}

#[test]
fn public_key_is_hex_of_compressed_point() {
    let signer = test_signer();
    let pk = signer.get_public_key();
    assert_eq!(pk.len(), 66);
    assert!(pk.chars().all(|c| c.is_ascii_hexdigit() && !c.is_ascii_uppercase()));
    let reference = {
        let sk = secp256k1::SecretKey::from_secret_bytes([1u8; 32]).unwrap();
        hex::encode(secp256k1::PublicKey::from_secret_key(&sk).serialize())
    };
    assert_eq!(pk, reference);
}

#[test]
fn txn_header_fields_are_fixed() {
    let signer = test_signer();
    let h = create_txn_header(&signer);
    assert_eq!(h.family_name, "twit");
    assert_eq!(h.family_version, "2.0");
    assert_eq!(h.inputs, vec![twit::address::get_twit_prefix()]);
    assert_eq!(h.outputs, vec![twit::address::get_twit_prefix()]);
    assert_eq!(h.signer_public_key, signer.get_public_key());
    assert_eq!(h.batcher_public_key, signer.get_public_key());
    assert_eq!(h.nonce.len(), 32);
    assert!(h.dependencies.is_empty());
    assert!(h.payload_sha512.is_empty());
}

#[test]
fn nonces_differ_across_builds() {
    let signer = test_signer();
    let h1 = create_txn_header(&signer);
    let h2 = create_txn_header(&signer);
    assert_ne!(h1.nonce, h2.nonce);
}

#[test]
fn batch_header_lists_transaction_ids_in_order() {
    let signer = test_signer();
    let t1 = txn_with_signature("sig-one");
    let t2 = txn_with_signature("sig-two");
    let txns = vec![t1, t2];
    let bh = create_batch_header(&signer, &txns);
    assert_eq!(bh.transaction_ids, vec!["sig-one".to_string(), "sig-two".to_string()]);

    let reordered = vec![txn_with_signature("sig-two"), txn_with_signature("sig-one")];
    let bh2 = create_batch_header(&signer, &reordered);
    assert_eq!(bh2.transaction_ids, vec!["sig-two".to_string(), "sig-one".to_string()]);
}

#[test]
fn batch_header_wire_bytes_are_exact() {
    let bh = BatchHeader {
        signer_public_key: "ab".to_string(),
        transaction_ids: vec!["cd".to_string(), "ef".to_string()],
    };
    let bytes = serialize_batch_header(&bh);
    assert_eq!(
        bytes,
        vec![0x0a, 0x02, b'a', b'b', 0x12, 0x02, b'c', b'd', 0x12, 0x02, b'e', b'f'],
    );
}

#[test]
fn txn_header_wire_omits_empty_fields() {
    let signer = test_signer();
    let mut h = create_txn_header(&signer);
    h.batcher_public_key = String::new();
    h.family_name = String::new();
    h.family_version = String::new();
    h.inputs = Vec::new();
    h.nonce = String::new();
    h.outputs = Vec::new();
    h.signer_public_key = String::new();
    let bytes = serialize_txn_header(&h);
    assert_eq!(bytes, Vec::<u8>::new());
}

#[test]
fn signing_round_trip_verifies() {
    let signer = test_signer();
    let message = b"the exact serialized header bytes";
    let sig = signer.sign(message).unwrap();
    assert_eq!(sig.len(), 128);
    assert!(verify_signature(&sig, message, &signer.get_public_key()));
}

#[test]
fn signing_is_deterministic_per_message() {
    let signer = test_signer();
    let s1 = signer.sign(b"m").unwrap();
    let s2 = signer.sign(b"m").unwrap();
    assert_eq!(s1, s2);
    let s3 = signer.sign(b"n").unwrap();
    assert_ne!(s1, s3);
}

#[test]
fn tampering_with_the_message_breaks_verification() {
    let signer = test_signer();
    let message = b"header bytes".to_vec();
    let sig = signer.sign(&message).unwrap();
    for i in 0..message.len() {
        let mut tampered = message.clone();
        tampered[i] ^= 0x01;
        assert!(!verify_signature(&sig, &tampered, &signer.get_public_key()));
    }
}

#[test]
fn tampering_with_the_signature_breaks_verification() {
    let signer = test_signer();
    let message = b"header bytes";
    let sig = signer.sign(message).unwrap();
    let mut chars: Vec<char> = sig.chars().collect();
    chars[10] = if chars[10] == '0' { '1' } else { '0' };
    let tampered: String = chars.into_iter().collect();
    assert!(!verify_signature(&tampered, message, &signer.get_public_key()));
}

#[test]
fn invalid_private_keys_are_rejected() {
    // The zero scalar, a wrong length, and a value at or above the curve
    // order are all rejected; a valid key is accepted.
    assert!(Signer::from_private_key(vec![0u8; 32]).is_none());
    assert!(Signer::from_private_key(vec![1u8; 31]).is_none());
    assert!(Signer::from_private_key(vec![0xff; 32]).is_none());
    assert!(Signer::from_private_key(vec![1u8; 32]).is_some());
}

#[test]
fn verification_rejects_unparseable_inputs() {
    let signer = test_signer();
    let sig = signer.sign(b"m").unwrap();
    assert!(!verify_signature("zz", b"m", &signer.get_public_key()));
    assert!(!verify_signature(&sig, b"m", "zz"));
    // Valid hex, but 33 zero bytes are no point on the curve.
    assert!(!verify_signature(&sig, b"m", &"00".repeat(33)));
    // Valid hex, but too short for a compact signature.
    assert!(!verify_signature("abcd", b"m", &signer.get_public_key()));
}

#[test]
fn verification_rejects_the_wrong_key() {
    let signer = test_signer();
    let other = Signer::from_private_key(vec![2u8; 32]).unwrap();
    let sig = signer.sign(b"m").unwrap();
    assert!(!verify_signature(&sig, b"m", &other.get_public_key()));
}

#[test]
fn batch_list_carries_the_payload_and_valid_signatures() {
    let signer = test_signer();
    let payload = encode_payload("set", "T1", "7", "A", "hi");
    let bl = create_batch_list_with_signer(&signer, payload.clone()).unwrap();
    assert_eq!(bl.batches.len(), 1);
    let batch = &bl.batches[0];
    assert_eq!(batch.transactions.len(), 1);
    let tx = &batch.transactions[0];
    assert_eq!(tx.payload, payload);

    // The header signature verifies over the exact serialized header bytes,
    // and tampering with a single byte of the signed header breaks it.
    assert!(verify_signature(&tx.header_signature, &tx.header, &signer.get_public_key()));
    let mut tampered = tx.header.clone();
    tampered[0] ^= 0x01;
    assert!(!verify_signature(&tx.header_signature, &tampered, &signer.get_public_key()));

    assert!(verify_signature(&batch.header_signature, &batch.header, &signer.get_public_key()));
    let mut tampered_batch = batch.header.clone();
    let last = tampered_batch.len() - 1;
    tampered_batch[last] ^= 0x80;
    assert!(!verify_signature(
        &batch.header_signature,
        &tampered_batch,
        &signer.get_public_key(),
    ));

    // The batch header lists exactly the transaction's id.
    let expected_header = serialize_batch_header(&BatchHeader {
        signer_public_key: signer.get_public_key(),
        transaction_ids: vec![tx.header_signature.clone()],
    });
    assert_eq!(batch.header, expected_header);
}

#[test]
fn txn_header_carries_the_payload_digest() {
    let signer = test_signer();
    let payload = b"some payload".to_vec();
    let bl = create_batch_list_with_signer(&signer, payload.clone()).unwrap();
    let tx = &bl.batches[0].transactions[0];
    let digest_hex = hex::encode(sha2::Sha512::digest(&payload));
    // The digest appears, length-prefixed, inside the header bytes.
    let needle = digest_hex.as_bytes();
    let found = tx.header.windows(needle.len()).any(|w| w == needle);
    assert!(found);
}

#[test]
fn ephemeral_batch_list_builds() {
    let payload = encode_payload("set", "T9", "1", "B", "yo");
    let bl = create_batch_list(payload.clone()).unwrap();
    assert_eq!(bl.batches.len(), 1);
    assert_eq!(bl.batches[0].transactions[0].payload, payload);
    let wire = serialize_batch_list(&bl);
    assert!(!wire.is_empty());
    assert_eq!(wire[0], 0x0a);
}

#[test]
fn payload_wire_form_is_readable_by_reference_cbor() {
    let bytes = encode_payload("set", "1", "2", "3", "4");
    let v: serde_cbor::Value = serde_cbor::from_slice(&bytes).unwrap();
    match v {
        serde_cbor::Value::Map(m) => {
            assert_eq!(m.len(), 5);
            assert_eq!(
                m.get(&serde_cbor::Value::Text("Verb".to_string())),
                Some(&serde_cbor::Value::Text("set".to_string())),
            );
            assert_eq!(
                m.get(&serde_cbor::Value::Text("TweetId".to_string())),
                Some(&serde_cbor::Value::Text("1".to_string())),
            );
        },
        _ => panic!("payload is not a map"),
    }
}
