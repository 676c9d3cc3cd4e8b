//! Tests of the wire surface: routing, body parsing, and the endpoint
//! semantics, including the rejection paths of a publish.

use graphlog_proto::common::{AnchorType, ClaimType, KeyType};
use graphlog_proto::crypto::{PrivateKey, PublicKey};
use graphlog_proto::log::Log;
use graphlog_proto::reid::Reid;
use graphlog_proto::wire::{
    handle_request, parse_lookup_body, parse_publish_body, read_request, route, Endpoint, Reply,
    Request,
};

const EXP_2030: i64 = 1893456000;

fn fresh_key(seed: u8) -> PrivateKey {
    PrivateKey::from_bytes(vec![seed; 32]).expect("a 32-byte seed is a valid key")
}

fn fresh_record(seed: u8) -> (Reid, PublicKey) {
    let prv = fresh_key(seed);
    Reid::new_with_private(&prv, EXP_2030, None, None, None, false)
        .expect("creation in range must succeed")
}

/// The PEM form of a raw Ed25519 public key, produced independently.
fn pem_of(pk: &PublicKey) -> Vec<u8> {
    let key = openssl::pkey::PKey::public_key_from_raw_bytes(
        pk.as_bytes(),
        openssl::pkey::Id::ED25519,
    )
    .expect("32 raw bytes form a public key");
    key.public_key_to_pem().expect("PEM rendering succeeds")
}

#[test]
fn routing_matches_the_endpoints() {
    let path = |s: &str| s.as_bytes().to_vec();
    assert_eq!(route(b"POST", &path("/publish")), Endpoint::Publish);
    assert_eq!(route(b"POST", &path("/look_up")), Endpoint::LookUp);
    assert_eq!(route(b"GET", &path("/tail")), Endpoint::Tail);
    assert_eq!(route(b"GET", &path("/tail_3")), Endpoint::TailN(3));
    assert_eq!(route(b"GET", &path("/tail_12")), Endpoint::TailN(12));
    assert_eq!(route(b"GET", &path("/tail_all")), Endpoint::TailAll);
    assert_eq!(route(b"GET", &path("/tail_x")), Endpoint::Unhandled);
    assert_eq!(route(b"GET", &path("/tail_")), Endpoint::Unhandled);
    assert_eq!(
        route(b"GET", &path("/tail_07")),
        Endpoint::Unhandled,
        "a count with a leading zero is not canonical"
    );
    assert_eq!(
        route(b"GET", &path("/tail_99999999999999999999")),
        Endpoint::Unhandled,
        "a count that cannot fit is unhandled"
    );
    assert_eq!(route(b"GET", &path("/tail_3x")), Endpoint::Unhandled);
    assert_eq!(route(b"GET", &path("/publish")), Endpoint::Unhandled);
    assert_eq!(route(b"POST", &path("/tail")), Endpoint::Unhandled);
    assert_eq!(route(b"PUT", &path("/tail")), Endpoint::Unhandled);
    assert_eq!(route(b"GET", &path("/elsewhere")), Endpoint::Unhandled);
}

#[test]
fn publish_body_parses() {
    let (rec, _pk) = fresh_record(79);
    let body = format!("{{\"reid\":\"{}\",\"pubk\":\"REVG\"}}", rec.encode()).into_bytes();
    let msg = parse_publish_body(&body).expect("well-formed body");
    assert_eq!(msg.reid, rec);
    assert_eq!(msg.pub_key, "REVG");
    assert!(
        parse_publish_body(&b"{\"reid\":\"QUJD\",\"pubk\":\"REVG\"}".to_vec()).is_none(),
        "the reid field must hold the wire form of a record"
    );
    assert!(parse_publish_body(&b"{\"reid\":\"QUJD\"}".to_vec()).is_none());
    assert!(parse_publish_body(&b"".to_vec()).is_none());
    let mut trailing = format!("{{\"reid\":\"{}\",\"pubk\":\"REVG\"}}", rec.encode()).into_bytes();
    trailing.push(b' ');
    assert!(
        parse_publish_body(&trailing).is_none(),
        "trailing bytes make the body malformed"
    );
}

#[test]
fn lookup_body_parses() {
    let body = b"{\"id_b64\":\"AAECAw==\"}".to_vec();
    let msg = parse_lookup_body(&body).expect("well-formed body");
    assert_eq!(msg.id_b64, "AAECAw==");
    assert!(parse_lookup_body(&b"{\"id\":\"AAECAw==\"}".to_vec()).is_none());
}

#[test]
fn publish_accepts_a_valid_record() {
    let (rec, pk) = fresh_record(81);
    let id = rec.get_id();
    let mut log = Log::new(None);
    let body = format!(
        "{{\"reid\":\"{}\",\"pubk\":\"{}\"}}",
        rec.encode(),
        openssl::base64::encode_block(&pem_of(&pk)),
    );
    let req = read_request(Endpoint::Publish, &body.into_bytes()).expect("body parses");
    let reply = handle_request(&mut log, req);
    assert_eq!(reply, Reply::Accepted);
    assert_eq!(log.len(), 1);
    assert_eq!(log.tail().unwrap().get_id(), id);
}

#[test]
fn publish_rejects_a_mismatched_key() {
    // the record's id hashes key A, but it is signed by and submitted
    // with key B: the signature verifies under B, yet the publish must
    // be rejected because B does not hash to the record's id.
    let (_rec_a, pk_a) = fresh_record(83);
    let prv_b = fresh_key(87);
    let (_rec_b, pk_b) = fresh_record(87);
    let forged = Reid::new_with_keys(&pk_a, &prv_b, EXP_2030, None, None, None, false)
        .expect("creation in range must succeed");
    assert!(forged.verify_sig(&pk_b), "the signature itself checks under B");

    let mut log = Log::new(None);
    let reply = graphlog_proto::wire::publish(&mut log, forged, &pem_of(&pk_b));
    assert_eq!(reply, Reply::RejectedSignature);
    assert_eq!(log.len(), 0, "nothing is appended on a failed publish");
}

#[test]
fn publish_rejects_a_bad_signature() {
    let (mut rec, pk) = fresh_record(91);
    rec.append_anchor(AnchorType::DNS, String::from("tampered.example"));
    let mut log = Log::new(None);
    let reply = graphlog_proto::wire::publish(&mut log, rec, &pem_of(&pk));
    assert_eq!(reply, Reply::RejectedSignature);
    assert_eq!(log.len(), 0);
}

#[test]
fn publish_rejects_an_undecodable_key() {
    let (rec, _pk) = fresh_record(93);
    let mut log = Log::new(None);
    let reply = graphlog_proto::wire::publish(&mut log, rec, &b"not a pem".to_vec());
    assert_eq!(reply, Reply::MalformedKey);
    assert_eq!(log.len(), 0);
}

#[test]
fn publish_accepts_a_raw_pem_key() {
    // the key field may carry the PEM text itself, newlines and all,
    // instead of its base64 encoding
    let (rec, pk) = fresh_record(85);
    let pem_text = String::from_utf8(pem_of(&pk)).expect("PEM is text");
    assert!(pem_text.contains('\n'));
    let mut log = Log::new(None);
    let body = format!("{{\"reid\":\"{}\",\"pubk\":\"{}\"}}", rec.encode(), pem_text);
    let req = read_request(Endpoint::Publish, &body.into_bytes()).expect("body parses");
    assert_eq!(handle_request(&mut log, req), Reply::Accepted);
    assert_eq!(log.len(), 1);
}

#[test]
fn tail_of_an_empty_log_is_no_content() {
    let mut log = Log::new(None);
    let reply = handle_request(&mut log, Request::Tail);
    assert_eq!(reply, Reply::NoContent);
}

#[test]
fn tail_n_and_tail_all_scenario() {
    // five entries: TAIL_N(3) returns entries 3, 4 and 5 in that order;
    // TAIL_N("all") is explicitly not implemented.
    let mut log = Log::new(None);
    let mut ids: Vec<Vec<u8>> = Vec::new();
    for seed in 1..=5u8 {
        let (rec, _pk) = fresh_record(seed);
        ids.push(rec.get_id());
        log.append(rec);
    }
    match handle_request(&mut log, Request::TailN(3)) {
        Reply::Records(v) => {
            assert_eq!(v.len(), 3);
            assert_eq!(v[0].get_id(), ids[2]);
            assert_eq!(v[1].get_id(), ids[3]);
            assert_eq!(v[2].get_id(), ids[4]);
        }
        other => panic!("expected records, got {:?}", other),
    }
    let reply = handle_request(&mut log, Request::TailAll);
    assert_eq!(reply, Reply::NotImplemented);
}

#[test]
fn lookup_finds_the_latest_record_with_an_id() {
    let prv = fresh_key(97);
    let (rec, pk) = Reid::new_with_private(&prv, EXP_2030, None, None, None, false).unwrap();
    let mut rec2 = rec.clone();
    rec2.revoke();
    assert!(rec2.verify_sig(&pk));
    let id = rec.get_id();

    let mut log = Log::new(None);
    log.append(rec);
    let (mid, _) = fresh_record(99);
    log.append(mid);
    log.append(rec2);

    let body = format!("{{\"id_b64\":\"{}\"}}", openssl::base64::encode_block(&id));
    let req = read_request(Endpoint::LookUp, &body.into_bytes()).expect("body parses");
    match handle_request(&mut log, req) {
        Reply::Found(found) => {
            assert_eq!(found.get_id(), id);
            assert!(found.revoked_value(), "the later record wins");
        }
        other => panic!("expected a record, got {:?}", other),
    }

    let missing = format!(
        "{{\"id_b64\":\"{}\"}}",
        openssl::base64::encode_block(&[0u8; 32]),
    );
    let req = read_request(Endpoint::LookUp, &missing.into_bytes()).expect("body parses");
    assert_eq!(handle_request(&mut log, req), Reply::NotFound);
}

#[test]
fn unhandled_requests_are_malformed() {
    let mut log = Log::new(None);
    let reply = handle_request(&mut log, Request::Unhandled);
    assert_eq!(reply, Reply::Malformed);
    let bad = read_request(Endpoint::Publish, &b"nonsense".to_vec());
    assert!(bad.is_none());
}

#[test]
fn full_claim_record_survives_publish_and_lookup() {
    let prv = fresh_key(101);
    let (mut rec, pk) = Reid::new_with_private(&prv, EXP_2030, None, None, None, false).unwrap();
    rec.append_claim(
        ClaimType::SSHKEY,
        (KeyType::ED25519, String::from("ssh-ed25519 AAAA host")),
    );
    rec.append_anchor(AnchorType::DNS, String::from("node.example"));
    rec.update_sig(&prv).unwrap();
    let id = rec.get_id();
    let expected = rec.clone();

    let mut log = Log::new(None);
    let body = format!(
        "{{\"reid\":\"{}\",\"pubk\":\"{}\"}}",
        rec.encode(),
        openssl::base64::encode_block(&pem_of(&pk)),
    );
    let req = read_request(Endpoint::Publish, &body.into_bytes()).expect("body parses");
    assert_eq!(handle_request(&mut log, req), Reply::Accepted);

    let body = format!("{{\"id_b64\":\"{}\"}}", openssl::base64::encode_block(&id));
    let req = read_request(Endpoint::LookUp, &body.into_bytes()).expect("body parses");
    match handle_request(&mut log, req) {
        Reply::Found(found) => assert_eq!(found, expected),
        other => panic!("expected the record back, got {:?}", other),
    }
}
