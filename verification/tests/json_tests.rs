use ide_server::json::{collect_input_paths, JsonValue};

fn s(t: &str) -> JsonValue {
    JsonValue::Str(t.to_string())
}

fn obj(members: Vec<(&str, JsonValue)>) -> JsonValue {
    JsonValue::Object(members.into_iter().map(|(k, v)| (k.to_string(), v)).collect())
}

fn paths(v: &JsonValue) -> Vec<String> {
    let mut out = Vec::new();
    collect_input_paths(v, &mut out);
    out
}

#[test]
fn path_keys_are_taken_whatever_their_value() {
    let v = obj(vec![("file_path", s("a b")), ("cwd", s("/tmp")), ("path", s("x"))]);
    assert_eq!(paths(&v), vec!["a b", "/tmp", "x"]);
}

#[test]
fn other_strings_are_taken_when_they_read_as_paths() {
    let long = format!("a/{}", "b".repeat(298));
    let v = obj(vec![
        ("pattern", s("src/lib.rs")),
        ("query", s("a b/c")),
        ("note", s("no slash")),
        ("long", s(&long)),
        ("wide", s("é/é")),
    ]);
    assert_eq!(paths(&v), vec!["src/lib.rs".to_string(), long.clone(), "é/é".to_string()]);
}

#[test]
fn nested_values_are_searched_in_order() {
    let v = obj(vec![
        ("edits", JsonValue::Array(vec![obj(vec![("path", s("one"))]), s("two/taken"), obj(vec![("x", s("three/3"))])])),
        ("n", JsonValue::Num(serde_json::Number::from(1))),
        ("b", JsonValue::Bool(true)),
        ("z", JsonValue::Null),
        ("inner", obj(vec![("notebook_path", s("nb"))])),
    ]);
    assert_eq!(paths(&v), vec!["one", "two/taken", "three/3", "nb"]);
}

#[test]
fn array_items_are_taken_when_they_read_as_paths() {
    let v = obj(vec![("args", JsonValue::Array(vec![s("src/lib.rs"), s("--flag"), s("a b/c")]))]);
    assert_eq!(paths(&v), vec!["src/lib.rs"]);
}

#[test]
fn top_level_strings_are_taken_when_they_read_as_paths() {
    assert_eq!(paths(&s("a/b")), vec!["a/b"]);
    assert!(paths(&s("plain")).is_empty());
    assert!(paths(&s("a /b")).is_empty());
    let mut out = vec!["kept".to_string()];
    collect_input_paths(&obj(vec![("path", s("p"))]), &mut out);
    assert_eq!(out, vec!["kept", "p"]);
}
