use std::collections::BTreeMap;

use twit::address::calculate_address;
use twit::codec::decode;
use twit::errors::TwitError;
use twit::handler::TwitTransactionHandler;
use twit::payload::{encode_payload, TwitPayload, Verb};
use twit::state::{Ledger, TwitState};

fn fresh_state() -> TwitState {
    TwitState::new(Ledger::new())
}

fn set_payload(name: &str, author_id: &str, author_name: &str, text: &str) -> Vec<u8> {
    encode_payload("set", name, author_id, author_name, text)
}

#[test]
fn payload_parses_all_fields() {
    let bytes = encode_payload("set", "12345678", "7654321", "Test Author", "This a test tweet!");
    let p = TwitPayload::new(&bytes).unwrap().unwrap();
    assert_eq!(p.get_verb(), Verb::Create);
    assert_eq!(p.get_tweet_id(), "12345678");
    assert_eq!(p.get_name(), "12345678");
    assert_eq!(p.get_author_id(), "7654321");
    assert_eq!(p.get_author_name(), "Test Author");
    assert_eq!(p.get_tweet_text(), "This a test tweet!");
}

#[test]
fn payload_recognizes_all_verbs() {
    let del = TwitPayload::new(&encode_payload("del", "a", "b", "c", "d")).unwrap().unwrap();
    assert_eq!(del.get_verb(), Verb::Delete);
    let get = TwitPayload::new(&encode_payload("get", "a", "b", "c", "d")).unwrap().unwrap();
    assert_eq!(get.get_verb(), Verb::Read);
}

#[test]
fn payload_accepts_any_key_order() {
    let mut m = BTreeMap::new();
    m.insert(
        serde_cbor::Value::Text("Verb".to_string()),
        serde_cbor::Value::Text("set".to_string()),
    );
    m.insert(
        serde_cbor::Value::Text("TweetId".to_string()),
        serde_cbor::Value::Text("1".to_string()),
    );
    m.insert(
        serde_cbor::Value::Text("AuthorId".to_string()),
        serde_cbor::Value::Text("2".to_string()),
    );
    m.insert(
        serde_cbor::Value::Text("AuthorName".to_string()),
        serde_cbor::Value::Text("3".to_string()),
    );
    m.insert(
        serde_cbor::Value::Text("TweetText".to_string()),
        serde_cbor::Value::Text("4".to_string()),
    );
    // serde_cbor writes map keys in its own sorted order, not ours.
    let bytes = serde_cbor::to_vec(&serde_cbor::Value::Map(m.into_iter().collect())).unwrap();
    let p = TwitPayload::new(&bytes).unwrap().unwrap();
    assert_eq!(p.get_verb(), Verb::Create);
    assert_eq!(p.get_tweet_id(), "1");
}

#[test]
fn payload_missing_verb_is_invalid() {
    let mut m = BTreeMap::new();
    m.insert(
        serde_cbor::Value::Text("TweetId".to_string()),
        serde_cbor::Value::Text("1".to_string()),
    );
    let bytes = serde_cbor::to_vec(&serde_cbor::Value::Map(m.into_iter().collect())).unwrap();
    let r = TwitPayload::new(&bytes);
    assert!(matches!(r, Err(TwitError::InvalidPayload(_))));
}

#[test]
fn payload_unknown_verb_is_invalid() {
    let bytes = encode_payload("frobnicate", "1", "2", "3", "4");
    assert!(matches!(TwitPayload::new(&bytes), Err(TwitError::InvalidPayload(_))));
}

#[test]
fn payload_missing_field_is_invalid() {
    let mut m = BTreeMap::new();
    m.insert(
        serde_cbor::Value::Text("Verb".to_string()),
        serde_cbor::Value::Text("set".to_string()),
    );
    m.insert(
        serde_cbor::Value::Text("TweetId".to_string()),
        serde_cbor::Value::Text("1".to_string()),
    );
    let bytes = serde_cbor::to_vec(&serde_cbor::Value::Map(m.into_iter().collect())).unwrap();
    assert!(matches!(TwitPayload::new(&bytes), Err(TwitError::InvalidPayload(_))));
}

#[test]
fn payload_garbage_bytes_are_invalid() {
    assert!(matches!(TwitPayload::new(&[0xff, 0x00, 0x13]), Err(TwitError::InvalidPayload(_))));
    assert!(matches!(TwitPayload::new(&[]), Err(TwitError::InvalidPayload(_))));
}

#[test]
fn invalid_payload_leaves_state_untouched() {
    let handler = TwitTransactionHandler::new();
    let mut state = fresh_state();
    let r = handler.apply(&[0x01, 0x02], &mut state);
    assert!(matches!(r, Err(TwitError::InvalidPayload(_))));
    assert_eq!(state.context.entries.len(), 0);
}

#[test]
fn create_stores_the_record() {
    let handler = TwitTransactionHandler::new();
    let mut state = fresh_state();
    handler.apply(&set_payload("T1", "7", "A", "hi"), &mut state).unwrap();
    let f = state.get("T1").unwrap().unwrap();
    assert_eq!(f.tweet_id, b"T1".to_vec());
    assert_eq!(f.author_id, b"7".to_vec());
    assert_eq!(f.author_name, b"A".to_vec());
    assert_eq!(f.tweet_text, b"hi".to_vec());
}

#[test]
fn write_once_second_create_fails_and_keeps_first_value() {
    let handler = TwitTransactionHandler::new();
    let mut state = fresh_state();
    handler.apply(&set_payload("T1", "7", "A", "first"), &mut state).unwrap();
    let r = handler.apply(&set_payload("T1", "9", "B", "second"), &mut state);
    assert!(matches!(r, Err(TwitError::DuplicateRecord(_))));
    let f = state.get("T1").unwrap().unwrap();
    assert_eq!(f.author_id, b"7".to_vec());
    assert_eq!(f.tweet_text, b"first".to_vec());
}

#[test]
fn delete_then_create_succeeds_with_new_value() {
    let handler = TwitTransactionHandler::new();
    let mut state = fresh_state();
    handler.apply(&set_payload("T1", "7", "A", "first"), &mut state).unwrap();
    handler.apply(&encode_payload("del", "T1", "x", "x", "x"), &mut state).unwrap();
    assert!(state.get("T1").unwrap().is_none());
    handler.apply(&set_payload("T1", "9", "B", "second"), &mut state).unwrap();
    let f = state.get("T1").unwrap().unwrap();
    assert_eq!(f.author_id, b"9".to_vec());
    assert_eq!(f.tweet_text, b"second".to_vec());
}

#[test]
fn delete_of_nonexistent_name_is_a_noop_success() {
    let handler = TwitTransactionHandler::new();
    let mut state = fresh_state();
    let r = handler.apply(&encode_payload("del", "ghost", "x", "x", "x"), &mut state);
    assert!(r.is_ok());
    assert_eq!(state.context.entries.len(), 0);
}

#[test]
fn read_never_mutates() {
    let handler = TwitTransactionHandler::new();
    let mut state = fresh_state();
    handler.apply(&set_payload("T1", "7", "A", "hi"), &mut state).unwrap();
    let before = state.context.get_state_entry(&calculate_address("T1")).unwrap();
    handler.apply(&encode_payload("get", "T1", "x", "x", "x"), &mut state).unwrap();
    handler.apply(&encode_payload("get", "ghost", "x", "x", "x"), &mut state).unwrap();
    let after = state.context.get_state_entry(&calculate_address("T1")).unwrap();
    assert_eq!(before, after);
    assert_eq!(state.context.entries.len(), 1);
}

#[test]
fn three_records_scenario() {
    // Create T1; the container at its address holds exactly that entry; a
    // second create fails; a delete then a read finds nothing.
    let handler = TwitTransactionHandler::new();
    let mut state = fresh_state();
    handler.apply(&set_payload("T1", "7", "A", "hi"), &mut state).unwrap();

    let addr = calculate_address("T1");
    let stored = state.context.get_state_entry(&addr).unwrap();
    let container = decode(&stored).unwrap();
    assert_eq!(container.entries.len(), 1);
    let f = container.find(&b"T1".to_vec()).unwrap();
    assert_eq!(f.author_id, b"7".to_vec());
    assert_eq!(f.author_name, b"A".to_vec());
    assert_eq!(f.tweet_text, b"hi".to_vec());

    let r = handler.apply(&set_payload("T1", "0", "Z", "other"), &mut state);
    assert!(matches!(r, Err(TwitError::DuplicateRecord(_))));

    handler.apply(&encode_payload("del", "T1", "x", "x", "x"), &mut state).unwrap();
    assert!(state.get("T1").unwrap().is_none());
}

#[test]
fn records_with_distinct_names_coexist() {
    let handler = TwitTransactionHandler::new();
    let mut state = fresh_state();
    handler.apply(&set_payload("T1", "1", "A", "one"), &mut state).unwrap();
    handler.apply(&set_payload("T2", "2", "B", "two"), &mut state).unwrap();
    assert_eq!(state.get("T1").unwrap().unwrap().tweet_text, b"one".to_vec());
    assert_eq!(state.get("T2").unwrap().unwrap().tweet_text, b"two".to_vec());
    handler.apply(&encode_payload("del", "T1", "x", "x", "x"), &mut state).unwrap();
    assert!(state.get("T1").unwrap().is_none());
    assert_eq!(state.get("T2").unwrap().unwrap().tweet_text, b"two".to_vec());
}

#[test]
fn stored_record_with_explicit_name_differs_from_its_id() {
    // The accessor keys records by name; the stored tweet id may differ.
    let mut state = fresh_state();
    state
        .set(
            "T1",
            "1".to_string(),
            "7".to_string(),
            "A".to_string(),
            "hi".to_string(),
        )
        .unwrap();
    let f = state.get("T1").unwrap().unwrap();
    assert_eq!(f.tweet_id, b"1".to_vec());
    let addr = calculate_address("T1");
    let container = decode(&state.context.get_state_entry(&addr).unwrap()).unwrap();
    assert_eq!(container.entries.len(), 1);
}

#[test]
fn corrupt_stored_bytes_surface_as_storage_error() {
    let handler = TwitTransactionHandler::new();
    let mut ledger = Ledger::new();
    ledger.set_state_entry(calculate_address("T1"), vec![0xff, 0x13]);
    let mut state = TwitState::new(ledger);
    let r = handler.apply(&set_payload("T1", "7", "A", "hi"), &mut state);
    assert!(matches!(r, Err(TwitError::StorageError(_))));
    let r2 = handler.apply(&encode_payload("get", "T1", "x", "x", "x"), &mut state);
    assert!(matches!(r2, Err(TwitError::StorageError(_))));
}

#[test]
fn delete_of_absent_name_rewrites_identical_bytes() {
    // A container can sit at another name's address (a hash bucket); a
    // delete that finds the container but not the name writes back the
    // canonical encoding, which is byte-identical to what was stored.
    let mut other = twit::codec::Container::new();
    other.upsert(
        b"other".to_vec(),
        twit::codec::FieldSet {
            tweet_id: b"5".to_vec(),
            author_id: b"6".to_vec(),
            author_name: b"N".to_vec(),
            tweet_text: b"t".to_vec(),
        },
    );
    let bytes = twit::codec::encode(&other);
    let addr = calculate_address("X");
    let mut ledger = Ledger::new();
    ledger.set_state_entry(addr.clone(), bytes.clone());
    let mut state = TwitState::new(ledger);
    state.del("X").unwrap();
    assert_eq!(state.context.get_state_entry(&addr), Some(bytes));
}

#[test]
fn ledger_set_get_delete() {
    let mut l = Ledger::new();
    assert!(l.get_state_entry("a").is_none());
    l.set_state_entry("a".to_string(), vec![1, 2]);
    l.set_state_entry("b".to_string(), vec![3]);
    assert_eq!(l.get_state_entry("a"), Some(vec![1, 2]));
    l.set_state_entry("a".to_string(), vec![9]);
    assert_eq!(l.get_state_entry("a"), Some(vec![9]));
    assert_eq!(l.get_state_entry("b"), Some(vec![3]));
    l.delete_state_entry("a");
    assert!(l.get_state_entry("a").is_none());
    assert_eq!(l.get_state_entry("b"), Some(vec![3]));
}

#[test]
fn registration_metadata() {
    let h = TwitTransactionHandler::new();
    assert_eq!(h.family_name(), "twit");
    assert_eq!(h.family_versions(), vec!["2.0".to_string()]);
    assert_eq!(h.namespaces(), vec![twit::address::get_twit_prefix()]);
}

#[test]
fn error_reasons_are_carried() {
    let e = TwitError::InvalidPayload("why".to_string());
    assert_eq!(e.reason(), "why");
}
