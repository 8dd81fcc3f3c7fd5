use anytls::settings::StringMap;

#[test]
fn string_map_round_trips_key_value_lines() {
    let parsed = StringMap::from_bytes(b"v=2\nclient=anytls/0.0.12\nignored\npadding-md5=abc");

    assert_eq!(parsed.get("v"), Some("2"));
    assert_eq!(parsed.get("client"), Some("anytls/0.0.12"));
    assert_eq!(parsed.get("padding-md5"), Some("abc"));
    assert_eq!(parsed.get("ignored"), None);
}

#[test]
fn string_map_serializes_deterministically() {
    let mut map = StringMap::new();
    map.insert("v", "2");
    map.insert("client", "anytls-rust/0.1.0");

    assert_eq!(map.to_bytes(), b"client=anytls-rust/0.1.0\nv=2");
}

#[test]
fn string_map_reads_back_what_it_writes() {
    let mut map = StringMap::default();
    map.insert("zebra", "last=one");
    map.insert("alpha", "");
    map.insert("", "no key");
    map.insert("ключ", "значение");

    let read = StringMap::from_bytes(&map.to_bytes());

    assert_eq!(read, map);
    assert_eq!(read.get("zebra"), Some("last=one"));
    assert_eq!(read.get("ключ"), Some("значение"));
    assert_eq!(StringMap::from_bytes(&StringMap::new().to_bytes()), StringMap::new());
}

#[test]
fn later_values_take_precedence() {
    let map = StringMap::from_bytes(b"k=1\nk=2");
    assert_eq!(map.get("k"), Some("2"));
    assert_eq!(map.to_bytes(), b"k=2");

    let collected = StringMap::from_iter(vec![
        ("b".to_string(), "1".to_string()),
        ("a".to_string(), "2".to_string()),
        ("b".to_string(), "3".to_string()),
    ]);
    assert_eq!(collected.to_bytes(), b"a=2\nb=3");
}

#[test]
fn bytes_that_are_no_text_are_replaced() {
    let map = StringMap::from_bytes(b"k=\xff\nv=2");
    assert_eq!(map.get("k"), Some("\u{fffd}"));
    assert_eq!(map.get("v"), Some("2"));
}

#[test]
fn keys_are_ordered_as_their_bytes_are() {
    let mut map = StringMap::new();
    for key in ["b", "a", "aa", "B", "é", "z", "\u{ffff}", "\u{10000}"] {
        map.insert(key, "1");
    }
    let mut keys = vec!["b", "a", "aa", "B", "é", "z", "\u{ffff}", "\u{10000}"];
    keys.sort();
    let expected = keys.iter().map(|key| format!("{key}=1")).collect::<Vec<_>>().join("\n");
    assert_eq!(map.to_bytes(), expected.into_bytes());
    assert_eq!(map.clone(), map);
}
