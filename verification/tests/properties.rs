use std::collections::BTreeMap;

use archunit::library::freeze::properties::{load, store, store_at};

fn pairs(map: &BTreeMap<String, String>) -> Vec<(String, String)> {
    map.iter().map(|(k, v)| (k.clone(), v.clone())).collect()
}

#[test]
fn round_trips_special_characters() {
    let mut properties = BTreeMap::new();
    properties.insert(
        "rule: with = and\nnewline #and ünïcode".to_owned(),
        " value with leading space".to_owned(),
    );
    properties.insert("plain".to_owned(), "abc".to_owned());
    let text = store(&pairs(&properties));
    assert!(text.contains("rule\\:\\ with\\ \\=\\ and\\nnewline\\ \\#and\\ \\u00FCn\\u00EFcode=\\ value with leading space"));
    assert_eq!(load(&text), pairs(&properties));
}

#[test]
fn loads_java_style_files() {
    let text = "#comment\n!another\nkey1 = value1\nkey2:value2\nkey3 value3\nlong\\\n    continued=x\\\n  y\n";
    let loaded: BTreeMap<String, String> = load(text).into_iter().collect();
    assert_eq!(loaded["key1"], "value1");
    assert_eq!(loaded["key2"], "value2");
    assert_eq!(loaded["key3"], "value3");
    assert_eq!(loaded["longcontinued"], "xy");
}

#[test]
fn stores_header_with_time_and_sorted_lines() {
    let props = vec![("a".to_owned(), "1".to_owned()), ("b c".to_owned(), "x y".to_owned())];
    assert_eq!(store_at(&props, 42), "#\n#42\na=1\nb\\ c=x y\n");
}

#[test]
fn later_keys_replace_earlier_ones_and_keys_come_sorted() {
    let loaded = load("b=2\na=1\nb=3\n");
    assert_eq!(loaded, vec![("a".to_owned(), "1".to_owned()), ("b".to_owned(), "3".to_owned())]);
}

#[test]
fn unicode_escapes_and_invalid_escapes() {
    let loaded = load("k=\\u0041\\u00e9\\uZZ\n");
    assert_eq!(loaded, vec![("k".to_owned(), "Aé\\uZZ".to_owned())]);
}

#[test]
fn escapes_characters_beyond_the_basic_plane_with_more_digits() {
    let props = vec![("k".to_owned(), "😀".to_owned())];
    assert_eq!(store_at(&props, 0), "#\n#0\nk=\\u1F600\n");
}

#[test]
fn stores_the_current_time_in_the_header() {
    let text = store(&Vec::new());
    let lines: Vec<&str> = text.lines().collect();
    assert_eq!(lines.len(), 2);
    assert_eq!(lines[0], "#");
    let seconds: u64 = lines[1][1..].parse().unwrap();
    assert!(seconds > 1_600_000_000);
}

#[test]
fn pairs_are_ordered_by_key_with_the_last_value_of_each() {
    let pairs = vec![
        ("b".to_string(), "1".to_string()),
        ("a".to_string(), "2".to_string()),
        ("b".to_string(), "3".to_string()),
    ];
    assert_eq!(
        archunit::library::freeze::properties::ordered_by_key(&pairs),
        vec![("a".to_string(), "2".to_string()), ("b".to_string(), "3".to_string())]
    );
}
