use sha2::Digest;

use twit::address::{calculate_address, get_twit_prefix};
use twit::hexstr::{from_hex, to_hex_string};

#[test]
fn prefix_matches_reference_hash() {
    let digest = sha2::Sha512::digest(b"twit");
    let expected = &hex::encode(digest)[..6];
    assert_eq!(get_twit_prefix(), expected);
}

#[test]
fn prefix_is_the_registered_constant() {
    assert_eq!(get_twit_prefix(), "19c62b");
}

#[test]
fn address_is_prefix_plus_name_hash_suffix() {
    let digest = sha2::Sha512::digest("T1".as_bytes());
    let expected = format!("{}{}", get_twit_prefix(), &hex::encode(digest)[64..]);
    assert_eq!(calculate_address("T1"), expected);
}

#[test]
fn address_is_pure_and_fixed_length() {
    let a1 = calculate_address("some-name");
    let a2 = calculate_address("some-name");
    assert_eq!(a1, a2);
    assert_eq!(a1.len(), 70);
    assert_eq!(calculate_address("").len(), 70);
    assert_eq!(calculate_address("другое имя").len(), 70);
}

#[test]
fn distinct_names_usually_get_distinct_addresses() {
    assert_ne!(calculate_address("T1"), calculate_address("T2"));
}

#[test]
fn addresses_share_the_namespace_prefix() {
    let prefix = get_twit_prefix();
    assert!(calculate_address("T1").starts_with(&prefix));
    assert!(calculate_address("anything").starts_with(&prefix));
}

#[test]
fn distinct_domains_get_distinct_prefixes() {
    let other = &hex::encode(sha2::Sha512::digest(b"intkey"))[..6];
    assert_ne!(get_twit_prefix(), other);
    let third = &hex::encode(sha2::Sha512::digest(b"xo"))[..6];
    assert_ne!(get_twit_prefix(), third);
}

#[test]
fn hex_rendering_matches_reference() {
    let bytes: Vec<u8> = vec![0x00, 0x01, 0x0f, 0x10, 0xab, 0xcd, 0xef, 0xff];
    assert_eq!(to_hex_string(&bytes), hex::encode(&bytes));
    assert_eq!(to_hex_string(&Vec::new()), "");
    assert_eq!(to_hex_string(&vec![0xbe, 0xef]), "beef");
}

#[test]
fn hex_parsing_inverts_rendering() {
    let bytes: Vec<u8> = vec![0xde, 0xad, 0x00, 0x42];
    let s = to_hex_string(&bytes);
    assert_eq!(from_hex(&s), Some(bytes));
    assert_eq!(from_hex(""), Some(Vec::new()));
    assert_eq!(from_hex("0f10"), Some(vec![0x0f, 0x10]));
}

#[test]
fn hex_parsing_rejects_malformed_strings() {
    assert_eq!(from_hex("abc"), None);
    assert_eq!(from_hex("zz"), None);
    assert_eq!(from_hex("AB"), None);
    assert_eq!(from_hex("0 "), None);
}
