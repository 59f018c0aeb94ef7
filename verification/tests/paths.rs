use comfyui_api_proxy::document::parse_document;
use comfyui_api_proxy::json::{JsonValue, Number, Object};
use comfyui_api_proxy::utils::prompt_ops::apply_set_path;

fn json(text: &str) -> JsonValue {
    parse_document(text).unwrap()
}

fn path(segments: &[&str]) -> Vec<String> {
    segments.iter().map(|s| s.to_string()).collect()
}

fn read<'a>(root: &'a JsonValue, segments: &[&str]) -> Option<&'a JsonValue> {
    let mut cur = root;
    for s in segments {
        cur = cur.get(s)?;
    }
    Some(cur)
}

#[test]
fn a_value_is_set_at_an_existing_path() {
    let mut root = json(r#"{"2": {"inputs": {"seed": 1, "steps": 20}}}"#);
    assert!(apply_set_path(&mut root, &path(&["2", "inputs", "seed"]), JsonValue::integer(42)));
    assert_eq!(root, json(r#"{"2": {"inputs": {"seed": 42, "steps": 20}}}"#));
}

#[test]
fn a_value_that_was_set_is_read_back() {
    let mut root = json(r#"{"a": {"b": {"c": 1}}, "d": 2}"#);
    for segments in [&["a", "b", "c"][..], &["a", "b", "new"], &["a", "x"], &["d"], &["e"]] {
        let v = JsonValue::text("here");
        assert!(apply_set_path(&mut root, &path(segments), v));
        assert_eq!(read(&root, segments), Some(&JsonValue::text("here")));
    }
}

#[test]
fn the_last_segment_may_be_new() {
    let mut root = json(r#"{"2": {"inputs": {}}}"#);
    assert!(apply_set_path(&mut root, &path(&["2", "inputs", "seed"]), JsonValue::integer(7)));
    assert_eq!(root, json(r#"{"2": {"inputs": {"seed": 7}}}"#));
}

#[test]
fn a_new_member_goes_last_and_an_old_one_keeps_its_place() {
    let mut root = json(r#"{"b": 1, "a": 2}"#);
    assert!(apply_set_path(&mut root, &path(&["c"]), JsonValue::integer(3)));
    assert!(apply_set_path(&mut root, &path(&["b"]), JsonValue::integer(4)));
    let map = root.as_object().unwrap();
    assert_eq!(map.len(), 3);
    assert_eq!(map.key_at(0), "b");
    assert_eq!(map.key_at(1), "a");
    assert_eq!(map.key_at(2), "c");
    assert_eq!(map.value_at(0), &JsonValue::integer(4));
}

#[test]
fn a_missing_intermediate_is_not_created() {
    let mut root = json(r#"{"2": {"inputs": {}}}"#);
    let before = root.clone();
    assert!(!apply_set_path(&mut root, &path(&["3", "inputs", "seed"]), JsonValue::integer(7)));
    assert_eq!(root, before);
    assert!(!apply_set_path(&mut root, &path(&["2", "outputs", "seed"]), JsonValue::integer(7)));
    assert_eq!(root, before);
}

#[test]
fn a_path_through_a_value_that_is_no_object_fails() {
    let mut root = json(r#"{"a": 5, "b": [1, 2], "c": "text", "d": null}"#);
    let before = root.clone();
    for key in ["a", "b", "c", "d"] {
        assert!(!apply_set_path(&mut root, &path(&[key, "x"]), JsonValue::Null));
        assert!(!apply_set_path(&mut root, &path(&[key, "x", "y"]), JsonValue::Null));
    }
    assert!(!apply_set_path(&mut root, &path(&["b", "0"]), JsonValue::Null));
    assert_eq!(root, before);
}

#[test]
fn an_empty_path_sets_nothing() {
    let mut root = json(r#"{"a": 1}"#);
    assert!(!apply_set_path(&mut root, &[], JsonValue::Null));
    assert_eq!(root, json(r#"{"a": 1}"#));
}

#[test]
fn a_root_that_is_no_object_takes_no_value() {
    for text in ["5", "[1]", "\"s\"", "null", "true"] {
        let mut root = json(text);
        assert!(!apply_set_path(&mut root, &path(&["a"]), JsonValue::Null));
        assert_eq!(root, json(text));
    }
}

#[test]
fn numeric_segments_are_keys() {
    let mut root = json(r#"{"8": {"0": 1}}"#);
    assert!(apply_set_path(&mut root, &path(&["8", "0"]), JsonValue::Bool(true)));
    assert_eq!(root, json(r#"{"8": {"0": true}}"#));
}

#[test]
fn a_value_of_any_kind_replaces_one_of_any_kind() {
    let mut root = json(r#"{"a": {"b": 1}}"#);
    assert!(apply_set_path(&mut root, &path(&["a"]), json("[1, {\"x\": 2}]")));
    assert_eq!(root, json(r#"{"a": [1, {"x": 2}]}"#));
    assert!(!apply_set_path(&mut root, &path(&["a", "b"]), JsonValue::Null));
}

#[test]
fn objects_are_built_entry_by_entry() {
    let mut o = Object::new();
    assert!(o.is_empty());
    o.insert("k".to_string(), JsonValue::integer(1));
    o.insert("j".to_string(), JsonValue::Number(Number::from_u64(2)));
    o.insert("k".to_string(), JsonValue::integer(3));
    assert_eq!(o.len(), 2);
    assert_eq!(o.position("k"), Some(0));
    assert_eq!(o.position("j"), Some(1));
    assert_eq!(o.position("i"), None);
    assert!(o.contains_key("j"));
    assert!(!o.contains_key(""));
    assert_eq!(o.get("k"), Some(&JsonValue::integer(3)));
    assert_eq!(JsonValue::Object(o), json(r#"{"k": 3, "j": 2}"#));
}

#[test]
fn pairs_are_put_in_order() {
    let pairs = vec![
        ("a".to_string(), JsonValue::integer(1)),
        ("b".to_string(), JsonValue::integer(2)),
        ("a".to_string(), JsonValue::integer(3)),
    ];
    assert_eq!(JsonValue::Object(Object::from_pairs(pairs)), json(r#"{"a": 3, "b": 2}"#));
}

#[test]
fn numbers_know_their_range() {
    assert_eq!(Number::from_i64(-3).as_i64(), Some(-3));
    assert_eq!(Number::from_i64(-3).as_u64(), None);
    assert_eq!(Number::from_i64(3), Number::from_u64(3));
    assert_eq!(Number::from_u64(u64::MAX).as_i64(), None);
    assert_eq!(Number::from_u64(u64::MAX).as_u64(), Some(u64::MAX));
    assert_eq!(Number::from_float_text("1.5".to_string()).as_i64(), None);
    assert_eq!(
        Number::from_float_text("1.5".to_string()).float_text(),
        Some(&"1.5".to_string())
    );
    assert_eq!(Number::from_i64(1).float_text(), None);
    assert_eq!(Number::from_parts(Some(1), Some(1), String::new()), Number::from_u64(1));
    assert_eq!(Number::from_parts(None, Some(-1), String::new()), Number::from_i64(-1));
    assert_eq!(
        Number::from_parts(None, None, "0.5".to_string()),
        Number::from_float_text("0.5".to_string())
    );
}

#[test]
fn a_clone_is_equal_and_apart() {
    let root = json(r#"{"a": [1, {"b": "c"}], "d": 1.5}"#);
    let mut copy = root.clone();
    assert_eq!(copy, root);
    assert!(apply_set_path(&mut copy, &path(&["d"]), JsonValue::Null));
    assert_eq!(root, json(r#"{"a": [1, {"b": "c"}], "d": 1.5}"#));
}
