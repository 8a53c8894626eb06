use std::collections::BTreeMap;

use twit::codec::{decode, encode, Container, FieldSet};
use twit::errors::TwitError;

fn fields(tweet_id: &str, author_id: &str, author_name: &str, tweet_text: &str) -> FieldSet {
    FieldSet {
        tweet_id: tweet_id.as_bytes().to_vec(),
        author_id: author_id.as_bytes().to_vec(),
        author_name: author_name.as_bytes().to_vec(),
        tweet_text: tweet_text.as_bytes().to_vec(),
    }
}

fn assert_fields_eq(a: &FieldSet, b: &FieldSet) {
    assert_eq!(a.tweet_id, b.tweet_id);
    assert_eq!(a.author_id, b.author_id);
    assert_eq!(a.author_name, b.author_name);
    assert_eq!(a.tweet_text, b.tweet_text);
}

#[test]
fn round_trip_empty_container() {
    let c = Container::new();
    let bytes = encode(&c);
    assert_eq!(bytes, vec![0xa0]);
    let back = decode(&bytes).unwrap();
    assert_eq!(back.entries.len(), 0);
}

#[test]
fn round_trip_single_record() {
    let mut c = Container::new();
    let f = fields("1", "7", "A", "hi");
    c.upsert(b"T1".to_vec(), f.duplicate());
    let bytes = encode(&c);
    let back = decode(&bytes).unwrap();
    assert_eq!(back.entries.len(), 1);
    let got = back.find(&b"T1".to_vec()).unwrap();
    assert_fields_eq(got, &f);
}

#[test]
fn round_trip_many_records() {
    let mut c = Container::new();
    for i in 0..40 {
        let name = format!("name-{}", i);
        c.upsert(
            name.as_bytes().to_vec(),
            fields(&format!("{}", i), "7", "someone", "text with spaces and ünïcode"),
        );
    }
    let bytes = encode(&c);
    let back = decode(&bytes).unwrap();
    assert_eq!(back.entries.len(), 40);
    for i in 0..40 {
        let name = format!("name-{}", i);
        let got = back.find(&name.as_bytes().to_vec()).unwrap();
        assert_eq!(got.tweet_id, format!("{}", i).as_bytes().to_vec());
    }
}

#[test]
fn round_trip_long_values() {
    let mut c = Container::new();
    let long = "x".repeat(70_000);
    c.upsert(b"k".to_vec(), fields("1", "7", "A", &long));
    let bytes = encode(&c);
    let back = decode(&bytes).unwrap();
    let got = back.find(&b"k".to_vec()).unwrap();
    assert_eq!(got.tweet_text.len(), 70_000);
}

#[test]
fn upsert_replaces_in_place_and_preserves_others() {
    let mut c = Container::new();
    c.upsert(b"a".to_vec(), fields("1", "1", "1", "1"));
    c.upsert(b"b".to_vec(), fields("2", "2", "2", "2"));
    c.upsert(b"a".to_vec(), fields("9", "9", "9", "9"));
    assert_eq!(c.entries.len(), 2);
    assert_eq!(c.find(&b"a".to_vec()).unwrap().tweet_id, b"9".to_vec());
    assert_eq!(c.find(&b"b".to_vec()).unwrap().tweet_id, b"2".to_vec());
}

#[test]
fn remove_deletes_only_the_named_entry() {
    let mut c = Container::new();
    c.upsert(b"a".to_vec(), fields("1", "1", "1", "1"));
    c.upsert(b"b".to_vec(), fields("2", "2", "2", "2"));
    c.remove(&b"a".to_vec());
    assert!(c.find(&b"a".to_vec()).is_none());
    assert_eq!(c.find(&b"b".to_vec()).unwrap().tweet_id, b"2".to_vec());
    c.remove(&b"missing".to_vec());
    assert_eq!(c.entries.len(), 1);
}

#[test]
fn decode_rejects_non_map_top_level() {
    let r = decode(&[0x63, b'a', b'b', b'c']);
    assert!(matches!(r, Err(TwitError::DecodeError(_))));
}

#[test]
fn decode_rejects_empty_input() {
    assert!(decode(&[]).is_err());
}

#[test]
fn decode_rejects_truncated_container() {
    let mut c = Container::new();
    c.upsert(b"T1".to_vec(), fields("1", "7", "A", "hi"));
    let mut bytes = encode(&c);
    bytes.pop();
    assert!(decode(&bytes).is_err());
}

#[test]
fn decode_rejects_trailing_bytes() {
    let c = Container::new();
    let mut bytes = encode(&c);
    bytes.push(0);
    assert!(decode(&bytes).is_err());
}

#[test]
fn decode_rejects_entry_of_the_wrong_shape() {
    // A map of one entry whose value is text, not a field map.
    let bytes = vec![0xa1, 0x61, b'k', 0x61, b'v'];
    assert!(decode(&bytes).is_err());
}

#[test]
fn decode_rejects_non_canonical_length() {
    // The empty map written with a needlessly wide count.
    let bytes = vec![0xb8, 0x00];
    assert!(decode(&bytes).is_err());
}

#[test]
fn encoding_is_readable_by_reference_cbor() {
    let mut c = Container::new();
    c.upsert(b"T1".to_vec(), fields("1", "7", "A", "hi"));
    let mine = encode(&c);

    let mut inner = BTreeMap::new();
    inner.insert(
        serde_cbor::Value::Text("AuthorID".to_string()),
        serde_cbor::Value::Text("7".to_string()),
    );
    inner.insert(
        serde_cbor::Value::Text("AuthorName".to_string()),
        serde_cbor::Value::Text("A".to_string()),
    );
    inner.insert(
        serde_cbor::Value::Text("TweetID".to_string()),
        serde_cbor::Value::Text("1".to_string()),
    );
    inner.insert(
        serde_cbor::Value::Text("TweetText".to_string()),
        serde_cbor::Value::Text("hi".to_string()),
    );
    let mut outer = BTreeMap::new();
    outer.insert(
        serde_cbor::Value::Text("T1".to_string()),
        serde_cbor::Value::Map(inner.into_iter().collect()),
    );
    let expected = serde_cbor::Value::Map(outer.into_iter().collect());

    // Another CBOR implementation reads back exactly the intended mapping.
    let parsed: serde_cbor::Value = serde_cbor::from_slice(&mine).unwrap();
    assert_eq!(parsed, expected);
}

#[test]
fn decode_is_strict_about_field_order() {
    // serde_cbor sorts map keys canonically by encoded length, which puts
    // the field keys in a different order than the stored form uses; the
    // strict decoder rejects that ordering rather than guess.
    let mut inner = BTreeMap::new();
    inner.insert(
        serde_cbor::Value::Text("AuthorID".to_string()),
        serde_cbor::Value::Text("77".to_string()),
    );
    inner.insert(
        serde_cbor::Value::Text("AuthorName".to_string()),
        serde_cbor::Value::Text("Someone".to_string()),
    );
    inner.insert(
        serde_cbor::Value::Text("TweetID".to_string()),
        serde_cbor::Value::Text("42".to_string()),
    );
    inner.insert(
        serde_cbor::Value::Text("TweetText".to_string()),
        serde_cbor::Value::Text("hello".to_string()),
    );
    let mut outer = BTreeMap::new();
    outer.insert(
        serde_cbor::Value::Text("42".to_string()),
        serde_cbor::Value::Map(inner.into_iter().collect()),
    );
    let bytes = serde_cbor::to_vec(&serde_cbor::Value::Map(outer.into_iter().collect())).unwrap();
    assert!(decode(&bytes).is_err());
}
