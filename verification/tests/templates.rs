use comfyui_api_proxy::document::parse_document;
use comfyui_api_proxy::error::AppError;
use comfyui_api_proxy::json::JsonValue;
use comfyui_api_proxy::prompt::constructor::placeholder;
use comfyui_api_proxy::PromptConstructor;

fn json(text: &str) -> JsonValue {
    parse_document(text).unwrap()
}

fn missing(key: &str) -> Result<JsonValue, AppError> {
    Err(AppError::PromptConstruction(format!("Missing input for placeholder: {}", key)))
}

/// The key of a placeholder, as the standard library's string methods give it.
fn expected_key(s: &str) -> Option<String> {
    if s.starts_with("{{") && s.ends_with("}}") {
        Some(s.trim_start_matches("{{").trim_end_matches("}}").trim().to_string())
    } else {
        None
    }
}

#[test]
fn placeholders_are_replaced_by_inputs() {
    let template = json(
        r#"{"3": {"inputs": {"seed": "{{seed}}", "text": "{{ prompt }}", "steps": 20}},
            "list": ["{{seed}}", ["{{prompt}}"], "plain {{seed}}"]}"#,
    );
    let inputs = json(r#"{"seed": 42, "prompt": {"a": [1]}, "unused": null}"#);
    assert_eq!(
        PromptConstructor::new().construct_prompt(&template, &inputs),
        Ok(json(
            r#"{"3": {"inputs": {"seed": 42, "text": {"a": [1]}, "steps": 20}},
                "list": [42, [{"a": [1]}], "plain {{seed}}"]}"#
        ))
    );
}

#[test]
fn the_first_missing_input_is_reported() {
    let template = json(r#"{"a": "{{one}}", "b": ["{{two}}", "{{three}}"], "c": "{{four}}"}"#);
    let c = PromptConstructor::new();
    assert_eq!(c.construct_prompt(&template, &json(r#"{"one": 1}"#)), missing("two"));
    assert_eq!(c.construct_prompt(&template, &json(r#"{"one": 1, "two": 2}"#)), missing("three"));
    assert_eq!(c.construct_prompt(&template, &json(r#"{}"#)), missing("one"));
    assert_eq!(c.construct_prompt(&template, &json(r#"[1, 2]"#)), missing("one"));
    assert_eq!(c.construct_prompt(&json(r#""{{}}""#), &json(r#"{}"#)), missing(""));
}

#[test]
fn a_template_without_placeholders_is_copied() {
    let template = json(r#"{"a": [1, 2.5, "text", null, true, {"b": "{not}"}]}"#);
    let c = PromptConstructor::new();
    assert_eq!(c.construct_prompt(&template, &json("{}")), Ok(template.clone()));
    assert_eq!(c.construct_prompt(&json("7"), &json("null")), Ok(json("7")));
}

#[test]
fn a_replacement_is_not_searched_again() {
    let template = json(r#"["{{a}}"]"#);
    let inputs = json(r#"{"a": "{{b}}", "b": 1}"#);
    assert_eq!(
        PromptConstructor::new().construct_prompt(&template, &inputs),
        Ok(json(r#"["{{b}}"]"#))
    );
}

#[test]
fn keys_are_what_the_string_methods_give() {
    for s in [
        "", "{", "{{", "}}", "{{}}", "{{a}}", "{{ a }}", "{{\ta b\n}}", "{{{{a}}}}", "{{{a}}}",
        "{{a}}}", "{{a}", "{a}}", "a{{b}}", "{{b}}a", "{{ }}", "{{}}{{}}", "{{a}}{{b}}",
        "{{}}}}", "{{{{}}", "{{ {{a}} }}", "{{\u{a0}x\u{3000}}}", "{{é}}", "{}{}", "{{}{}}",
    ] {
        assert_eq!(placeholder(s), expected_key(s), "{:?}", s);
    }
    assert_eq!(placeholder("{{ seed }}"), Some("seed".to_string()));
    assert_eq!(placeholder("{{{{a}}}}"), Some("a".to_string()));
    assert_eq!(placeholder("seed"), None);
}

#[test]
fn errors_tell_their_cause() {
    let e = AppError::PromptConstruction("cause".to_string());
    assert_eq!(e.detail(), "cause");
    assert_eq!(AppError::ComfyUI("other".to_string()).detail(), "other");
}
