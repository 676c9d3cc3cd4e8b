//! Tests of the append-only log: ordering, lookup, persistence and
//! replay.

use graphlog_proto::crypto::PrivateKey;
use graphlog_proto::log::Log;
use graphlog_proto::reid::Reid;

const EXP_2030: i64 = 1893456000;

fn fresh_key(seed: u8) -> PrivateKey {
    PrivateKey::from_bytes(vec![seed; 32]).expect("a 32-byte seed is a valid key")
}

fn fresh_record(seed: u8) -> Reid {
    let prv = fresh_key(seed);
    let (rec, _pk) = Reid::new_with_private(&prv, EXP_2030, None, None, None, false)
        .expect("creation in range must succeed");
    rec
}

#[test]
fn append_is_monotonic_and_tail_is_last() {
    let mut log = Log::new(None);
    assert!(log.is_empty());
    assert!(log.tail().is_none());
    assert!(log.head().is_none());
    let mut expected_ids: Vec<Vec<u8>> = Vec::new();
    for seed in 1..=5u8 {
        let rec = fresh_record(seed);
        expected_ids.push(rec.get_id());
        let before = log.len();
        log.append(rec);
        assert_eq!(log.len(), before + 1);
        assert_eq!(
            log.tail().unwrap().get_id(),
            expected_ids[expected_ids.len() - 1]
        );
    }
    assert_eq!(log.head().unwrap().get_id(), expected_ids[0]);
    assert!(!log.is_empty());
}

#[test]
fn search_finds_most_recent_match() {
    let mut log = Log::new(None);
    let first = fresh_record(31);
    let second = fresh_record(37);
    log.append(first.clone());
    log.append(second.clone());
    let hit = log
        .search(|r: &Reid| !r.revoked_value())
        .expect("both match, the later one wins");
    assert_eq!(hit.get_id(), second.get_id());
    assert!(log.search(|r: &Reid| r.revoked_value()).is_none());
}

#[test]
fn search_id_prefers_the_later_record() {
    // two records with the same id: a republish after mutation
    let prv = fresh_key(41);
    let (rec, pk) = Reid::new_with_private(&prv, EXP_2030, None, None, None, false).unwrap();
    let mut rec2 = rec.clone();
    rec2.revoke();
    assert_eq!(rec.get_id(), rec2.get_id());
    assert!(rec2.verify_sig(&pk));

    let mut log = Log::new(None);
    log.append(rec.clone());
    log.append(fresh_record(43));
    log.append(rec2.clone());

    let hit = log.search_id(&rec.get_id()).expect("the id is in the log");
    assert!(hit.revoked_value(), "the later (revoked) record must win");
    assert!(log.search_id(&vec![0u8; 32]).is_none());
}

#[test]
fn tailn_returns_last_entries_in_order() {
    let mut log = Log::new(None);
    let mut ids: Vec<Vec<u8>> = Vec::new();
    for seed in 1..=5u8 {
        let rec = fresh_record(seed);
        ids.push(rec.get_id());
        log.append(rec);
    }
    let last3 = log.tailn(3);
    assert_eq!(last3.len(), 3);
    assert_eq!(last3[0].get_id(), ids[2]);
    assert_eq!(last3[1].get_id(), ids[3]);
    assert_eq!(last3[2].get_id(), ids[4]);
    assert_eq!(log.tailn(0).len(), 0);
    assert_eq!(log.tailn(99).len(), 5);
    assert_eq!(log.tailn(99)[0].get_id(), ids[0]);
}

#[test]
fn persist_without_path_is_a_reported_no_op() {
    let mut log = Log::new(None);
    log.append(fresh_record(47));
    assert!(log.persist().is_none());
    assert_eq!(log.flushed(), 0);
    assert_eq!(log.len(), 1);
}

#[test]
fn persist_is_idempotent() {
    let mut log = Log::new(Some(String::from("trust.log")));
    log.append(fresh_record(51));
    log.append(fresh_record(53));
    assert_eq!(log.flushed(), 0);

    let lines = log.persist().expect("a path is configured");
    assert_eq!(lines.len(), 2);
    assert_eq!(log.flushed(), 2);

    // no intervening append: nothing more to write, cursor unchanged
    let again = log.persist().expect("a path is configured");
    assert_eq!(again.len(), 0);
    assert_eq!(log.flushed(), 2);

    // one more append leaves exactly the new entry pending
    log.append(fresh_record(57));
    let third = log.persist().expect("a path is configured");
    assert_eq!(third.len(), 1);
    assert_eq!(log.flushed(), 3);
}

#[test]
fn persist_lines_are_the_wire_forms() {
    let mut log = Log::new(Some(String::from("trust.log")));
    let rec = fresh_record(59);
    let encoded = rec.encode();
    log.append(rec);
    let lines = log.persist().unwrap();
    assert_eq!(lines, vec![encoded]);
}

#[test]
fn replay_restores_the_log() {
    let first = fresh_record(61);
    let second = fresh_record(67);
    let lines = vec![first.encode(), second.encode()];
    let log = Log::new_from_lines(String::from("trust.log"), &lines)
        .expect("every line is a wire form");
    assert_eq!(log.len(), 2);
    assert_eq!(log.flushed(), 2);
    assert_eq!(log.head().unwrap(), &first);
    assert_eq!(log.tail().unwrap(), &second);
    // a replayed log has nothing pending
    let mut log = log;
    let lines = log.persist().unwrap();
    assert_eq!(lines.len(), 0);
}

#[test]
fn replay_fails_hard_on_a_corrupt_line() {
    let first = fresh_record(71);
    let lines = vec![
        first.encode(),
        String::from("***corrupt***"),
        first.encode(),
    ];
    let err = Log::new_from_lines(String::from("trust.log"), &lines);
    assert!(matches!(err, Err(1)));
}
