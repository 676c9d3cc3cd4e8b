//! Tests of the record: creation, signing, verification, mutation and
//! the wire codec.

use graphlog_proto::common::{AnchorType, ClaimType, KeyType};
use graphlog_proto::crypto::PrivateKey;
use graphlog_proto::reid::Reid;

/// 2030-01-01T00:00:00Z as seconds since the epoch.
const EXP_2030: i64 = 1893456000;

fn fresh_key(seed: u8) -> PrivateKey {
    PrivateKey::from_bytes(vec![seed; 32]).expect("a 32-byte seed is a valid key")
}

#[test]
fn create_verifies_immediately() {
    let prv = fresh_key(7);
    let (rec, pk) = Reid::new_with_private(&prv, EXP_2030, None, None, None, false)
        .expect("creation in range must succeed");
    assert!(rec.verify_sig(&pk));
    assert_eq!(rec.get_id().len(), 32);
    assert_eq!(rec.sig_ref().len(), 64);
    assert_eq!(rec.expiration_value(), EXP_2030);
    assert!(!rec.revoked_value());
    assert!(rec.pow_ref().is_none());
    // the id is a digest of the public key, never the key itself, and
    // the derived public key differs from the private seed
    assert_ne!(&rec.get_id(), pk.as_bytes());
    assert_ne!(pk.as_bytes(), &vec![7u8; 32]);
    // the digest matches an independent SHA-256 of the raw key
    let independent = openssl::hash::hash(openssl::hash::MessageDigest::sha256(), pk.as_bytes())
        .unwrap()
        .to_vec();
    assert_eq!(rec.get_id(), independent);
}

#[test]
fn create_rejects_out_of_range_expiration() {
    let prv = fresh_key(9);
    assert!(Reid::new_with_private(&prv, i64::MAX, None, None, None, false).is_none());
    assert!(Reid::new_with_private(&prv, i64::MIN, None, None, None, false).is_none());
}

#[test]
fn mutate_then_resign_scenario() {
    // create with expiration 2030-01-01T00:00:00Z, append one SSHKEY
    // claim, resign, verify; mutate again without resigning and verify
    // fails.
    let prv = fresh_key(11);
    let (mut rec, pk) = Reid::new_with_private(&prv, EXP_2030, None, None, None, false)
        .expect("creation in range must succeed");
    assert!(rec.verify_sig(&pk));

    rec.append_claim(
        ClaimType::SSHKEY,
        (KeyType::ED25519, String::from("ssh-ed25519 AAAAC3Nz host")),
    );
    assert!(!rec.verify_sig(&pk), "a mutated record must stop verifying");

    let sig = rec.update_sig(&prv).expect("re-signing must succeed");
    assert_eq!(&sig, rec.sig_ref());
    assert!(rec.verify_sig(&pk), "a re-signed record verifies again");

    rec.append_claim(
        ClaimType::WGKEY,
        (KeyType::ED25519, String::from("wg-public-key")),
    );
    assert!(
        !rec.verify_sig(&pk),
        "mutating claims without re-signing must break verification"
    );
}

#[test]
fn anchors_and_expiration_affect_verification() {
    let prv = fresh_key(13);
    let (mut rec, pk) = Reid::new_with_private(&prv, EXP_2030, None, None, None, false).unwrap();
    rec.append_anchor(AnchorType::DNS, String::from("node.example"));
    assert!(!rec.verify_sig(&pk));
    rec.update_sig(&prv).unwrap();
    assert!(rec.verify_sig(&pk));
}

#[test]
fn revoke_never_changes_verification() {
    let prv = fresh_key(17);
    let (mut rec, pk) = Reid::new_with_private(&prv, EXP_2030, None, None, None, false).unwrap();
    assert!(rec.verify_sig(&pk));
    rec.revoke();
    assert!(rec.revoked_value());
    assert!(rec.verify_sig(&pk), "revocation is outside the signed payload");

    // also in the failing direction: a tampered record stays invalid
    let (mut rec2, pk2) = Reid::new_with_private(&prv, EXP_2030, None, None, None, false).unwrap();
    rec2.append_anchor(AnchorType::EMAIL, String::from("a@example"));
    assert!(!rec2.verify_sig(&pk2));
    rec2.revoke();
    assert!(!rec2.verify_sig(&pk2));
}

#[test]
fn verify_fails_under_wrong_key() {
    let prv_a = fresh_key(19);
    let prv_b = fresh_key(23);
    let (rec, _pk_a) = Reid::new_with_private(&prv_a, EXP_2030, None, None, None, false).unwrap();
    let (_other, pk_b) = Reid::new_with_private(&prv_b, EXP_2030, None, None, None, false).unwrap();
    assert!(!rec.verify_sig(&pk_b));
}

#[test]
fn encode_stays_on_one_line() {
    let prv = fresh_key(27);
    let (rec, _pk) = Reid::new_with_private(&prv, EXP_2030, None, None, None, false).unwrap();
    let encoded = rec.encode();
    assert!(!encoded.contains('\n'));
    assert!(!encoded.contains('\r'));
    // the encoded length is four base64 bytes for every three of input
    let json_len = rec.to_json().len();
    assert_eq!(encoded.len(), 4 * ((json_len + 2) / 3));
}

#[test]
fn round_trip_plain_record() {
    let prv = fresh_key(29);
    let (rec, _pk) = Reid::new_with_private(&prv, EXP_2030, None, None, None, false).unwrap();
    let encoded = rec.encode();
    let decoded = Reid::decode(encoded.as_str()).expect("an encoded record must decode");
    assert_eq!(decoded, rec);
}

#[test]
fn round_trip_full_record() {
    let claims = vec![
        (
            ClaimType::SSHKEY,
            (KeyType::ED25519, String::from("ssh-ed25519 AAAA host")),
        ),
        (ClaimType::X509, (KeyType::ED25519, String::from("--cert--"))),
        (ClaimType::WGKEY, (KeyType::ED25519, String::from(""))),
    ];
    let anchors = vec![
        (AnchorType::DNS, String::from("node.example")),
        (AnchorType::EMAIL, String::from("who@example")),
        (AnchorType::PHONE, String::from("+15550100")),
        (AnchorType::IPADDR, String::from("192.0.2.7")),
    ];
    let rec = Reid::new(
        vec![0, 1, 2, 255],
        Some(vec![9, 9]),
        -1,
        vec![7; 64],
        Some(claims),
        Some(anchors),
        true,
    )
    .expect("expiration in range");
    let decoded = Reid::decode(rec.encode().as_str()).expect("must decode");
    assert_eq!(decoded, rec);
}

#[test]
fn round_trip_keeps_unicode_values() {
    let rec = Reid::new(
        vec![],
        None,
        0,
        vec![],
        Some(vec![(
            ClaimType::SSHKEY,
            (KeyType::ED25519, String::from("clef publique \u{00e9}\u{4e16}")),
        )]),
        Some(vec![(AnchorType::DNS, String::from("d\u{00f6}main"))]),
        false,
    )
    .unwrap();
    let decoded = Reid::decode(rec.encode().as_str()).expect("must decode");
    assert_eq!(decoded, rec);
}

#[test]
fn to_json_exact_rendering() {
    let rec = Reid::new(
        vec![1, 2],
        None,
        5,
        vec![3],
        Some(vec![(ClaimType::SSHKEY, (KeyType::ED25519, String::from("ab")))]),
        None,
        false,
    )
    .unwrap();
    let json = rec.to_json();
    let expected = "{\"id\":[1,2],\"pow\":null,\"expiration\":5,\"sig\":[3],\"claims\":[[0,0,[97,98]]],\"anchors\":null,\"revoked\":false}";
    assert_eq!(json, expected.as_bytes().to_vec());
}

#[test]
fn to_json_negative_expiration_and_empty_arrays() {
    let rec = Reid::new(
        vec![],
        Some(vec![]),
        -5,
        vec![],
        Some(vec![]),
        Some(vec![]),
        true,
    )
    .unwrap();
    let json = rec.to_json();
    let expected =
        "{\"id\":[],\"pow\":[],\"expiration\":-5,\"sig\":[],\"claims\":[],\"anchors\":[],\"revoked\":true}";
    assert_eq!(json, expected.as_bytes().to_vec());
}

#[test]
fn decode_rejects_corrupt_input() {
    // not base64 at all
    assert!(Reid::decode("!!!not-base64!!!").is_none());
    // valid base64 of bytes that are not a record
    let garbage = openssl::base64::encode_block(b"{\"id\":[1,2]");
    assert!(Reid::decode(garbage.as_str()).is_none());
    // a record with a leading-zero numeral is not canonical
    let nearly = openssl::base64::encode_block(
        b"{\"id\":[01],\"pow\":null,\"expiration\":5,\"sig\":[],\"claims\":null,\"anchors\":null,\"revoked\":false}",
    );
    assert!(Reid::decode(nearly.as_str()).is_none());
    // trailing bytes after the closing brace
    let trailing = openssl::base64::encode_block(
        b"{\"id\":[],\"pow\":null,\"expiration\":0,\"sig\":[],\"claims\":null,\"anchors\":null,\"revoked\":false} ",
    );
    assert!(Reid::decode(trailing.as_str()).is_none());
    // an expiration outside the accepted range
    let too_late = openssl::base64::encode_block(
        b"{\"id\":[],\"pow\":null,\"expiration\":999999999999,\"sig\":[],\"claims\":null,\"anchors\":null,\"revoked\":false}",
    );
    assert!(Reid::decode(too_late.as_str()).is_none());
}

#[test]
fn decode_accepts_canonical_text() {
    let text = openssl::base64::encode_block(
        b"{\"id\":[1,2],\"pow\":null,\"expiration\":5,\"sig\":[3],\"claims\":[[0,0,[97,98]]],\"anchors\":null,\"revoked\":false}",
    );
    let rec = Reid::decode(text.as_str()).expect("canonical text must decode");
    assert_eq!(rec.get_id(), vec![1, 2]);
    assert_eq!(rec.expiration_value(), 5);
    let claims = rec.claims_ref().as_ref().unwrap();
    assert_eq!(claims.len(), 1);
    assert_eq!(claims[0].0, ClaimType::SSHKEY);
    assert_eq!(claims[0].1 .1, "ab");
}

#[test]
fn signable_bytes_exact() {
    // id bytes, then claim tag + key tag + value bytes, then anchor tag +
    // value bytes, then the RFC 3339 expiration; no delimiters.
    let claims = vec![(ClaimType::X509, (KeyType::ED25519, String::from("ab")))];
    let anchors = vec![(AnchorType::EMAIL, String::from("cd"))];
    let data = Reid::args_to_signable(&vec![9, 8], 5, &Some(claims), &Some(anchors));
    let mut expected: Vec<u8> = vec![9, 8];
    expected.push(1); // X509
    expected.push(0); // ED25519
    expected.extend_from_slice(b"ab");
    expected.push(1); // EMAIL
    expected.extend_from_slice(b"cd");
    expected.extend_from_slice(b"1970-01-01T00:00:05+00:00");
    assert_eq!(data, expected);
}

#[test]
fn signable_bytes_of_2030_expiration() {
    let data = Reid::args_to_signable(&vec![], EXP_2030, &None, &None);
    assert_eq!(data, b"2030-01-01T00:00:00+00:00".to_vec());
}

#[test]
fn key_to_pem_returns_the_stored_text() {
    let key = (KeyType::ED25519, String::from("-----BEGIN PUBLIC KEY-----"));
    assert_eq!(Reid::key_to_pem(&key), "-----BEGIN PUBLIC KEY-----");
}

#[test]
fn id_equal_compares_bytes() {
    assert!(graphlog_proto::id_equal(vec![1, 2, 3], vec![1, 2, 3]));
    assert!(!graphlog_proto::id_equal(vec![1, 2, 3], vec![1, 2, 4]));
    assert!(!graphlog_proto::id_equal(vec![1, 2], vec![1, 2, 3]));
    assert!(graphlog_proto::id_equal(vec![], vec![]));
}
