use comfyui_api_proxy::document::parse_document;
use comfyui_api_proxy::json::{JsonValue, Number};
use comfyui_api_proxy::utils::prompt_ops::{
    parse_set_pairs, parse_value, parse_value_with, set_value_texts, FloatReading,
};

/// Reads a text as a binary64 number, the way an application would.
fn read_float(text: &str) -> FloatReading {
    match text.parse::<f64>() {
        Ok(f) => match serde_json::Number::from_f64(f) {
            Some(n) => FloatReading::Finite(n.to_string()),
            None => FloatReading::NonFinite,
        },
        Err(_) => FloatReading::Unreadable,
    }
}

fn coerce(text: &str) -> JsonValue {
    parse_value(text, &read_float(text))
}

fn float(text: &str) -> JsonValue {
    JsonValue::Number(Number::from_float_text(text.to_string()))
}

fn strings(items: &[&str]) -> Vec<String> {
    items.iter().map(|s| s.to_string()).collect()
}

fn pairs(items: &[&str]) -> Result<Vec<(Vec<String>, JsonValue)>, String> {
    let items = strings(items);
    let floats: Vec<FloatReading> =
        set_value_texts(&items).iter().map(|t| read_float(t)).collect();
    parse_set_pairs(&items, &floats)
}

#[test]
fn bare_digits_become_a_number() {
    assert_eq!(coerce("123"), JsonValue::Number(Number::from_i64(123)));
    assert_eq!(coerce("123").as_i64(), Some(123));
}

#[test]
fn quoted_digits_stay_a_string() {
    assert_eq!(coerce("\"123\""), JsonValue::String("123".to_string()));
}

#[test]
fn true_becomes_a_boolean() {
    assert_eq!(coerce("true"), JsonValue::Bool(true));
    assert_eq!(coerce("false"), JsonValue::Bool(false));
}

#[test]
fn a_bare_word_stays_a_string() {
    assert_eq!(coerce("abc"), JsonValue::String("abc".to_string()));
    assert_eq!(coerce("sdxl"), JsonValue::String("sdxl".to_string()));
    assert_eq!(coerce(""), JsonValue::String(String::new()));
}

#[test]
fn literals_match_in_any_case() {
    assert_eq!(coerce("null"), JsonValue::Null);
    assert_eq!(coerce("NULL"), JsonValue::Null);
    assert_eq!(coerce("Null"), JsonValue::Null);
    assert_eq!(coerce("TRUE"), JsonValue::Bool(true));
    assert_eq!(coerce("True"), JsonValue::Bool(true));
    assert_eq!(coerce("fAlSe"), JsonValue::Bool(false));
    assert_eq!(coerce("nulls"), JsonValue::String("nulls".to_string()));
}

#[test]
fn integers_outside_json_syntax_are_still_integers() {
    assert_eq!(coerce("+7"), JsonValue::Number(Number::from_i64(7)));
    assert_eq!(coerce("007"), JsonValue::Number(Number::from_i64(7)));
    assert_eq!(coerce("+0"), JsonValue::Number(Number::from_i64(0)));
    assert_eq!(coerce("-00"), JsonValue::Number(Number::from_i64(0)));
    assert_eq!(coerce("+9223372036854775807"), JsonValue::Number(Number::from_i64(i64::MAX)));
    assert_eq!(coerce("-9223372036854775808"), JsonValue::Number(Number::from_i64(i64::MIN)));
}

#[test]
fn json_numbers_keep_their_kind() {
    assert_eq!(coerce("-5"), JsonValue::Number(Number::from_i64(-5)));
    assert_eq!(
        coerce("18446744073709551615"),
        JsonValue::Number(Number::from_u64(u64::MAX))
    );
    assert_eq!(coerce("18446744073709551615").as_i64(), None);
    assert_eq!(coerce("1.5"), float("1.5"));
    assert_eq!(coerce("-0"), float("-0.0"));
    assert_eq!(coerce("1e3"), float("1000.0"));
    assert_eq!(coerce(" 12 "), JsonValue::Number(Number::from_i64(12)));
}

#[test]
fn floats_outside_json_syntax_come_from_the_reader() {
    assert_eq!(coerce("+1.50"), float("1.5"));
    assert_eq!(coerce(".5"), float("0.5"));
    assert_eq!(coerce("5."), float("5.0"));
    assert_eq!(coerce("+9223372036854775808"), float("9.223372036854776e+18"));
}

#[test]
fn readings_that_are_not_finite_become_null() {
    assert_eq!(coerce("inf"), JsonValue::Null);
    assert_eq!(coerce("-infinity"), JsonValue::Null);
    assert_eq!(coerce("NaN"), JsonValue::Null);
    assert_eq!(coerce("+1e999"), JsonValue::Null);
}

#[test]
fn the_reading_is_used_only_after_the_integer() {
    let reading = FloatReading::Finite("2.5".to_string());
    assert_eq!(parse_value("7", &reading), JsonValue::Number(Number::from_i64(7)));
    assert_eq!(parse_value("+7", &reading), JsonValue::Number(Number::from_i64(7)));
    assert_eq!(parse_value("true", &reading), JsonValue::Bool(true));
    assert_eq!(parse_value("x", &reading), float("2.5"));
    assert_eq!(parse_value("x", &FloatReading::NonFinite), JsonValue::Null);
    assert_eq!(
        parse_value("x", &FloatReading::Unreadable),
        JsonValue::String("x".to_string())
    );
}

#[test]
fn a_document_that_was_read_wins_over_every_other_reading() {
    let document = Ok(JsonValue::Bool(false));
    assert_eq!(
        parse_value_with("true", document, &FloatReading::Unreadable),
        JsonValue::Bool(false)
    );
    let failed = Err("no document".to_string());
    assert_eq!(
        parse_value_with("12", failed, &FloatReading::Unreadable),
        JsonValue::Number(Number::from_i64(12))
    );
}

#[test]
fn arrays_and_objects_are_read_as_documents() {
    let v = coerce("[\"6\", 0]");
    let items = v.as_array().unwrap();
    assert_eq!(items.len(), 2);
    assert_eq!(items[0], JsonValue::String("6".to_string()));
    assert_eq!(items[1], JsonValue::Number(Number::from_i64(0)));

    let o = coerce("{\"b\": 1, \"a\": {\"c\": null}}");
    let map = o.as_object().unwrap();
    assert_eq!(map.len(), 2);
    assert_eq!(map.key_at(0), "b");
    assert_eq!(map.key_at(1), "a");
    assert_eq!(o.get("a").unwrap().get("c"), Some(&JsonValue::Null));
}

#[test]
fn a_repeated_member_is_held_once() {
    let o = parse_document("{\"a\": 1, \"b\": 2, \"a\": 3}").unwrap();
    let map = o.as_object().unwrap();
    assert_eq!(map.len(), 2);
    assert_eq!(map.key_at(0), "a");
    assert_eq!(map.get("a"), Some(&JsonValue::Number(Number::from_i64(3))));
}

#[test]
fn a_text_that_is_no_document_reports_the_parser_error() {
    let text = "{\"a\": ";
    let expected = serde_json::from_str::<serde_json::Value>(text).unwrap_err().to_string();
    assert_eq!(parse_document(text), Err(expected));
    assert!(parse_document("1 2").is_err());
    assert!(parse_document("").is_err());
}

#[test]
fn set_pairs_split_path_and_value() {
    let parsed = pairs(&["2.inputs.seed=123", "a=b=c", "x.=", "=1.5", "k.j=+2.0"]).unwrap();
    assert_eq!(parsed.len(), 5);
    assert_eq!(parsed[0].0, strings(&["2", "inputs", "seed"]));
    assert_eq!(parsed[0].1, JsonValue::Number(Number::from_i64(123)));
    assert_eq!(parsed[1].0, strings(&["a"]));
    assert_eq!(parsed[1].1, JsonValue::String("b=c".to_string()));
    assert_eq!(parsed[2].0, strings(&["x", ""]));
    assert_eq!(parsed[2].1, JsonValue::String(String::new()));
    assert_eq!(parsed[3].0, strings(&[""]));
    assert_eq!(parsed[3].1, float("1.5"));
    assert_eq!(parsed[4].0, strings(&["k", "j"]));
    assert_eq!(parsed[4].1, float("2.0"));
}

#[test]
fn a_malformed_item_fails_the_whole_batch() {
    assert_eq!(
        pairs(&["seed=42", "badnosep"]),
        Err("Invalid --set 'badnosep', expected KEY=VALUE".to_string())
    );
    assert_eq!(
        pairs(&["first", "seed=42", "second"]),
        Err("Invalid --set 'first', expected KEY=VALUE".to_string())
    );
    assert_eq!(pairs(&[]), Ok(Vec::new()));
}

#[test]
fn missing_readings_count_as_unreadable() {
    let items = strings(&["a=+1.5", "b=+2.5"]);
    let floats = vec![FloatReading::Finite("1.5".to_string())];
    let parsed = parse_set_pairs(&items, &floats).unwrap();
    assert_eq!(parsed[0].1, float("1.5"));
    assert_eq!(parsed[1].1, JsonValue::String("+2.5".to_string()));
}

#[test]
fn value_texts_follow_the_first_separator() {
    let items = strings(&["a.b=1=2", "plain", "k="]);
    assert_eq!(set_value_texts(&items), strings(&["1=2", "", ""]));
}
