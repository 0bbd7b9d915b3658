use hvp_archive::archive::obscure2::{
    decimal_text, get_name_crc32, is_name_encodable, Obscure2NameMap,
};

#[test]
fn name_with_e_acute_is_hashed_as_single_bytes() {
    let expected = crc32fast::hash(&[b'r', 0xE9, b's', b'u', b'm', 0xE9]);
    assert_eq!(get_name_crc32("r\u{e9}sum\u{e9}"), expected);
    assert_ne!(get_name_crc32("r\u{e9}sum\u{e9}"), crc32fast::hash("r\u{e9}sum\u{e9}".as_bytes()));
}

#[test]
fn name_without_e_acute_is_hashed_as_utf8() {
    assert_eq!(get_name_crc32("data/level1.bin"), crc32fast::hash(b"data/level1.bin"));
    assert_eq!(get_name_crc32(""), 0);
    assert_eq!(get_name_crc32("\u{fc}ber"), crc32fast::hash("\u{fc}ber".as_bytes()));
}

#[test]
fn names_that_cannot_be_hashed_are_told_apart() {
    assert!(is_name_encodable("plain"));
    assert!(is_name_encodable("caf\u{e9}"));
    assert!(is_name_encodable("\u{fc}ber"));
    assert!(!is_name_encodable("caf\u{e9} \u{fc}"));
    assert!(is_name_encodable(""));
}

#[test]
fn dictionary_gives_names_back_by_hash() {
    let names = vec!["alpha".to_string(), "caf\u{e9}".to_string(), "beta".to_string()];
    let map = Obscure2NameMap::new(&names);
    assert_eq!(map.get_name(crc32fast::hash(b"alpha")), Some("alpha"));
    assert_eq!(map.get_name(crc32fast::hash(b"beta")), Some("beta"));
    assert_eq!(map.get_name(crc32fast::hash(&[b'c', b'a', b'f', 0xE9])), Some("caf\u{e9}"));
    assert_eq!(map.get_name(0), None);
    assert_eq!(map.get_crc32_from_name("alpha"), crc32fast::hash(b"alpha"));
}

#[test]
fn empty_dictionary_knows_no_name() {
    let map = Obscure2NameMap::default();
    assert_eq!(map.get_name(crc32fast::hash(b"alpha")), None);
    let map = Obscure2NameMap::empty();
    assert_eq!(map.get_name(0), None);
    let map = Obscure2NameMap::new(&Vec::new());
    assert_eq!(map.get_name(1), None);
}

#[test]
fn later_name_replaces_earlier_name_with_the_same_hash() {
    let names = vec!["same".to_string(), "other".to_string(), "same".to_string()];
    let map = Obscure2NameMap::new(&names);
    assert_eq!(map.get_name(crc32fast::hash(b"same")), Some("same"));
    assert_eq!(map.get_name(crc32fast::hash(b"other")), Some("other"));
}

#[test]
fn decimal_digits_of_hashes() {
    assert_eq!(decimal_text(0), "0");
    assert_eq!(decimal_text(7), "7");
    assert_eq!(decimal_text(10), "10");
    assert_eq!(decimal_text(1234567890), "1234567890");
    assert_eq!(decimal_text(u32::MAX), "4294967295");
}
