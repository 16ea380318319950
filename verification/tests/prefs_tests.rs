use ide_server::keyed::KeyedMap;
use ide_server::json::JsonValue;
use ide_server::prefs::{settings_from_text, settings_text, updated_settings_text, Settings};

#[test]
fn reading_after_setting_gives_what_was_written() {
    let mut s: Settings<i64> = Settings::new();
    s.set("theme".to_string(), Some(1));
    assert_eq!(s.get("theme"), Some(&1));
    s.set("theme".to_string(), Some(2));
    assert_eq!(s.get("theme"), Some(&2));
    assert_eq!(s.get("font"), None);
}

#[test]
fn null_removes_a_setting() {
    let mut s: Settings<i64> = Settings::new();
    s.set("a".to_string(), Some(1));
    s.set("b".to_string(), Some(2));
    s.set("a".to_string(), None);
    assert_eq!(s.get("a"), None);
    assert_eq!(s.get("b"), Some(&2));
    s.set("missing".to_string(), None);
    let mut entries = s.into_entries();
    entries.sort();
    assert_eq!(entries, vec![("b".to_string(), 2)]);
}

#[test]
fn entries_hold_each_key_once() {
    let mut s: Settings<&str> = Settings::new();
    s.set("x".to_string(), Some("1"));
    s.set("y".to_string(), Some("2"));
    s.set("x".to_string(), Some("3"));
    let mut entries = s.into_entries();
    entries.sort();
    assert_eq!(entries, vec![("x".to_string(), "3"), ("y".to_string(), "2")]);
}

#[test]
fn keyed_map_insert_and_remove_give_back_old_values() {
    let mut m: KeyedMap<u8> = KeyedMap::new();
    assert_eq!(m.insert("k".to_string(), 1), None);
    assert_eq!(m.insert("k".to_string(), 2), Some(1));
    assert!(m.contains_key("k"));
    assert_eq!(m.remove("k"), Some(2));
    assert_eq!(m.remove("k"), None);
    assert!(!m.contains_key("k"));
}

#[test]
fn settings_file_text_is_read_as_a_json_object() {
    let s = settings_from_text(r#"{"theme": "dark", "size": 12}"#);
    assert!(matches!(s.get("theme"), Some(JsonValue::Str(t)) if t == "dark"));
    assert!(matches!(s.get("size"), Some(JsonValue::Num(n)) if n.as_u64() == Some(12)));
    assert!(s.get("missing").is_none());
    assert!(settings_from_text("not json").into_entries().is_empty());
    assert!(settings_from_text("[1, 2]").into_entries().is_empty());
    assert!(settings_from_text("").into_entries().is_empty());
}

#[test]
fn setting_a_key_rewrites_the_file_pretty_printed() {
    let text = updated_settings_text(r#"{"b": 1}"#, "a".to_string(), JsonValue::Str("x/y".to_string()));
    assert_eq!(text, Some("{\n  \"a\": \"x/y\",\n  \"b\": 1\n}".to_string()));
    let text = updated_settings_text(r#"{"a": 1, "b": [true, null]}"#, "a".to_string(), JsonValue::Null);
    assert_eq!(text, Some("{\n  \"b\": [\n    true,\n    null\n  ]\n}".to_string()));
    let text = updated_settings_text("garbage", "k".to_string(), JsonValue::Bool(false));
    assert_eq!(text, Some("{\n  \"k\": false\n}".to_string()));
    let text = updated_settings_text("", "k".to_string(), JsonValue::Null);
    assert_eq!(text, Some("{}".to_string()));
}

#[test]
fn settings_text_round_trips_through_the_parser() {
    let original = r#"{"nested": {"x": [1, 2.5, "s"]}, "z": "last"}"#;
    let text = settings_text(settings_from_text(original)).unwrap();
    let again = settings_text(settings_from_text(&text)).unwrap();
    assert_eq!(text, again);
    assert_eq!(text, "{\n  \"nested\": {\n    \"x\": [\n      1,\n      2.5,\n      \"s\"\n    ]\n  },\n  \"z\": \"last\"\n}");
}
