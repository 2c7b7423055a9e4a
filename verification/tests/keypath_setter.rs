use json_keypath::json::JsonValue;
use json_keypath::keypath::split_key_path;
use json_keypath::setter::{resolve, resolve_key_path, set_key_path, set_path, SetError};

fn str_val(t: &str) -> JsonValue {
    JsonValue::Str(t.to_string())
}

fn obj(entries: Vec<(&str, JsonValue)>) -> JsonValue {
    JsonValue::Obj(entries.into_iter().map(|(k, v)| (k.to_string(), v)).collect())
}

fn strings(parts: Vec<&str>) -> Vec<String> {
    parts.into_iter().map(|p| p.to_string()).collect()
}

#[test]
fn split_two_segments() {
    assert_eq!(split_key_path("common.greeting"), strings(vec!["common", "greeting"]));
}

#[test]
fn split_single_segment() {
    assert_eq!(split_key_path("title"), strings(vec!["title"]));
}

#[test]
fn split_empty_string_is_one_empty_segment() {
    assert_eq!(split_key_path(""), strings(vec![""]));
}

#[test]
fn split_keeps_empty_segments() {
    assert_eq!(split_key_path("a..b"), strings(vec!["a", "", "b"]));
    assert_eq!(split_key_path("a."), strings(vec!["a", ""]));
    assert_eq!(split_key_path(".a"), strings(vec!["", "a"]));
}

#[test]
fn set_creates_intermediate_objects() {
    let mut doc = obj(vec![]);
    let r = set_key_path(&mut doc, "a.b.c", "value");
    assert_eq!(r, Ok(false));
    let expected = obj(vec![("a", obj(vec![("b", obj(vec![("c", str_val("value"))]))]))]);
    assert_eq!(doc, expected);
}

#[test]
fn set_overwrites_existing_key() {
    let mut doc = obj(vec![("a", str_val("old"))]);
    let r = set_key_path(&mut doc, "a", "new");
    assert_eq!(r, Ok(true));
    assert_eq!(doc, obj(vec![("a", str_val("new"))]));
}

#[test]
fn set_fails_on_structural_conflict() {
    let mut doc = obj(vec![("a", str_val("scalar"))]);
    let r = set_key_path(&mut doc, "a.b", "value");
    assert_eq!(r, Err(SetError::InvalidStructure));
    assert_eq!(doc, obj(vec![("a", str_val("scalar"))]));
}

#[test]
fn set_fails_on_non_object_root() {
    let mut doc = str_val("just a string");
    let r = set_key_path(&mut doc, "a", "value");
    assert_eq!(r, Err(SetError::InvalidStructure));
    assert_eq!(doc, str_val("just a string"));
}

#[test]
fn set_then_resolve_yields_the_value() {
    let mut doc = obj(vec![("x", str_val("1"))]);
    set_key_path(&mut doc, "a.b", "hello").unwrap();
    let node = resolve_key_path(&doc, "a.b");
    assert_eq!(node, Some(&str_val("hello")));
}

#[test]
fn set_twice_equals_set_once() {
    let build = || obj(vec![("common", obj(vec![("greeting", str_val("hi"))]))]);

    let mut once = build();
    let first = set_key_path(&mut once, "common.label", "ok").unwrap();
    assert!(!first);

    let mut twice = build();
    set_key_path(&mut twice, "common.label", "ok").unwrap();
    let second = set_key_path(&mut twice, "common.label", "ok").unwrap();
    assert!(second);

    assert_eq!(once, twice);
}

#[test]
fn set_path_with_presplit_segments() {
    let mut doc = obj(vec![]);
    let segments = strings(vec!["a", "b"]);
    let r = set_path(&mut doc, &segments, "v");
    assert_eq!(r, Ok(false));
    assert_eq!(doc, obj(vec![("a", obj(vec![("b", str_val("v"))]))]));
}

#[test]
fn localization_scenario_two_documents() {
    // en.json holds the key already, fr.json is empty.
    let mut en = obj(vec![("common", obj(vec![("greeting", str_val("hi"))]))]);
    let mut fr = obj(vec![]);

    let r_en = set_key_path(&mut en, "common.greeting", "bonjour");
    let r_fr = set_key_path(&mut fr, "common.greeting", "bonjour");

    let expected = obj(vec![("common", obj(vec![("greeting", str_val("bonjour"))]))]);
    assert_eq!(r_en, Ok(true));
    assert_eq!(en, expected);
    assert_eq!(r_fr, Ok(false));
    assert_eq!(fr, expected);
}

#[test]
fn existing_keys_keep_their_position_new_keys_append() {
    let mut doc = obj(vec![
        ("b", str_val("1")),
        ("a", obj(vec![("x", str_val("2"))])),
    ]);
    set_key_path(&mut doc, "a.y", "3").unwrap();
    set_key_path(&mut doc, "c", "4").unwrap();
    let expected = obj(vec![
        ("b", str_val("1")),
        ("a", obj(vec![("x", str_val("2")), ("y", str_val("3"))])),
        ("c", str_val("4")),
    ]);
    assert_eq!(doc, expected);
}

#[test]
fn resolve_misses() {
    let doc = obj(vec![("a", obj(vec![("b", str_val("1"))]))]);
    assert_eq!(resolve_key_path(&doc, "a.c"), None);
    assert_eq!(resolve_key_path(&doc, "a.b.c"), None);
    assert_eq!(resolve_key_path(&doc, "z"), None);
    let segments = strings(vec!["a"]);
    assert_eq!(resolve(&doc, &segments), Some(&obj(vec![("b", str_val("1"))])));
}

#[test]
fn set_tolerates_other_node_kinds_off_the_path() {
    let mut doc = obj(vec![
        ("n", JsonValue::Num("1.5".to_string())),
        ("t", JsonValue::Bool(true)),
        ("z", JsonValue::Null),
        ("l", JsonValue::Arr(vec![str_val("x")])),
    ]);
    set_key_path(&mut doc, "name", "done").unwrap();
    let expected = obj(vec![
        ("n", JsonValue::Num("1.5".to_string())),
        ("t", JsonValue::Bool(true)),
        ("z", JsonValue::Null),
        ("l", JsonValue::Arr(vec![str_val("x")])),
        ("name", str_val("done")),
    ]);
    assert_eq!(doc, expected);
}

#[test]
fn empty_segment_is_a_key_like_any_other() {
    let mut doc = obj(vec![]);
    let r = set_key_path(&mut doc, "a..b", "v");
    assert_eq!(r, Ok(false));
    let expected = obj(vec![("a", obj(vec![("", obj(vec![("b", str_val("v"))]))]))]);
    assert_eq!(doc, expected);
}
