use comfyui_api_proxy::api::handlers::{
    collect_any_filenames, collect_filenames_for_id, collect_prompt_ids, history_lines,
    is_flag_set, join_lines, model_lines, ModelLine,
};
use comfyui_api_proxy::comfyui::client::{
    endpoint_url, is_valid_model_category, models_in_category_url, normalize_base_url,
};
use comfyui_api_proxy::document::parse_document;
use comfyui_api_proxy::error::AppError;
use comfyui_api_proxy::json::JsonValue;
use comfyui_api_proxy::Config;

fn json(text: &str) -> JsonValue {
    parse_document(text).unwrap()
}

fn strings(items: &[&str]) -> Vec<String> {
    items.iter().map(|s| s.to_string()).collect()
}

const HISTORY: &str = r#"{
    "11111111-aaaa": {"outputs": {"9": {"images": [
        {"filename": "a_1.png", "subfolder": "", "type": "output"},
        {"filename": "a_2.png"}]}}, "filename": 5},
    "short": {"outputs": {"9": {"images": [{"filename": "s.png"}]}}},
    "22222222-bbbb": {"outputs": {}},
    "33333333-cccc": "not a record"
}"#;

#[test]
fn filenames_are_found_anywhere_below() {
    let mut out = strings(&["kept"]);
    collect_any_filenames(&json(HISTORY), &mut out);
    assert_eq!(out, strings(&["kept", "a_1.png", "a_2.png", "s.png"]));
    let mut none = Vec::new();
    collect_any_filenames(&json(r#"["filename", {"file": "x"}, 1]"#), &mut none);
    assert!(none.is_empty());
}

#[test]
fn filenames_of_one_prompt_are_listed() {
    let mut out = Vec::new();
    collect_filenames_for_id(&json(HISTORY), "11111111-aaaa", &mut out);
    assert_eq!(out, strings(&["a_1.png", "a_2.png"]));
    let mut other = Vec::new();
    collect_filenames_for_id(&json(HISTORY), "short", &mut other);
    assert_eq!(other, strings(&["s.png"]));
    let mut absent = strings(&["kept"]);
    collect_filenames_for_id(&json(HISTORY), "nobody", &mut absent);
    assert_eq!(absent, strings(&["kept"]));
}

#[test]
fn a_history_member_is_searched_twice() {
    let hist = json(r#"{"history": {"id": {"filename": "f.png"}}}"#);
    let mut out = Vec::new();
    collect_filenames_for_id(&hist, "id", &mut out);
    assert_eq!(out, strings(&["f.png", "f.png"]));
    let listed = json(r#"[{"id": {"filename": "a"}}, [{"id": [{"filename": "b"}]}]]"#);
    let mut both = Vec::new();
    collect_filenames_for_id(&listed, "id", &mut both);
    assert_eq!(both, strings(&["a", "b"]));
}

#[test]
fn prompt_ids_are_long_keys_of_records() {
    let mut out = Vec::new();
    collect_prompt_ids(&json(HISTORY), &mut out);
    assert_eq!(out, strings(&["11111111-aaaa", "22222222-bbbb"]));
    let nested = json(
        r#"{"history": {"12345678": {}, "1234567": {}, "éééé": {}, "ééé": {}},
            "other": {"abcdefgh": {}}, "abcdefgh": []}"#,
    );
    let mut ids = Vec::new();
    collect_prompt_ids(&nested, &mut ids);
    assert_eq!(ids, strings(&["12345678", "éééé"]));
    let mut listed = Vec::new();
    collect_prompt_ids(&json(r#"[{"12345678": {}}, {"history": {}}]"#), &mut listed);
    assert_eq!(listed, strings(&["12345678"]));
}

#[test]
fn a_history_object_counts_as_a_record_too() {
    let mut out = Vec::new();
    collect_prompt_ids(&json(r#"{"historyxx": {"12345678": {}}, "history": {"x": 1}}"#), &mut out);
    assert_eq!(out, strings(&["historyxx"]));
}

#[test]
fn history_lines_list_files_or_ids() {
    let hist = json(HISTORY);
    assert_eq!(history_lines(&hist, Some("11111111-aaaa")), strings(&["a_1.png", "a_2.png"]));
    assert_eq!(history_lines(&hist, None), strings(&["11111111-aaaa", "22222222-bbbb"]));
    assert_eq!(join_lines(&history_lines(&hist, None)), "11111111-aaaa\n22222222-bbbb");
    assert_eq!(join_lines(&[]), "");
    assert_eq!(join_lines(&strings(&["one"])), "one");
    assert_eq!(join_lines(&strings(&["", "", "x"])), "\n\nx");
}

#[test]
fn flags_are_set_by_true_or_one() {
    assert!(is_flag_set(Some("true")));
    assert!(is_flag_set(Some("1")));
    for v in ["True", "yes", "0", "", "false", " 1"] {
        assert!(!is_flag_set(Some(v)), "{:?}", v);
    }
    assert!(!is_flag_set(None));
}

#[test]
fn model_lines_show_names_where_asked() {
    let v = json(r#"["a.safetensors", {"name": "b"}, {"name": 5, "x": 1}, {}, 7, null, ["c"]]"#);
    assert_eq!(
        model_lines(&v, true),
        Some(vec![
            ModelLine::Text("a.safetensors".to_string()),
            ModelLine::Text("b".to_string()),
            ModelLine::Pretty(json(r#"{"name": 5, "x": 1}"#)),
            ModelLine::Pretty(json("{}")),
            ModelLine::Compact(json("7")),
            ModelLine::Compact(json("null")),
            ModelLine::Compact(json(r#"["c"]"#)),
        ])
    );
    assert_eq!(
        model_lines(&v, false),
        Some(vec![
            ModelLine::Text("a.safetensors".to_string()),
            ModelLine::Compact(json(r#"{"name": "b"}"#)),
            ModelLine::Compact(json(r#"{"name": 5, "x": 1}"#)),
            ModelLine::Compact(json("{}")),
            ModelLine::Compact(json("7")),
            ModelLine::Compact(json("null")),
            ModelLine::Compact(json(r#"["c"]"#)),
        ])
    );
    assert_eq!(model_lines(&json("[]"), true), Some(Vec::new()));
    assert_eq!(model_lines(&json(r#"{"a": 1}"#), true), None);
    assert_eq!(model_lines(&json("\"checkpoints\""), false), None);
}

#[test]
fn categories_are_plain_names() {
    for ok in ["checkpoints", "vae", "clip_vision", "a-b", "A9", "", "_", "-"] {
        assert!(is_valid_model_category(ok), "{:?}", ok);
    }
    for bad in ["a/b", "..", "a b", "é", "a.b", "a?b", "checkpoints/", "%2e"] {
        assert!(!is_valid_model_category(bad), "{:?}", bad);
    }
}

#[test]
fn endpoints_stand_below_the_base_address() {
    assert_eq!(normalize_base_url("http://localhost:8188/"), "http://localhost:8188");
    assert_eq!(normalize_base_url("http://localhost:8188///"), "http://localhost:8188");
    assert_eq!(normalize_base_url("http://localhost:8188"), "http://localhost:8188");
    assert_eq!(endpoint_url("http://h", "prompt"), "http://h/prompt");
    assert_eq!(endpoint_url("", ""), "/");
    assert_eq!(
        models_in_category_url("http://h", "checkpoints"),
        Ok("http://h/models/checkpoints".to_string())
    );
    assert_eq!(
        models_in_category_url("http://h", "../etc"),
        Err(AppError::ComfyUI("Invalid model category".to_string()))
    );
}

#[test]
fn settings_fall_back_to_their_defaults() {
    let c = Config::new(None, None, None, None, None);
    assert_eq!(c.comfyui_url, "http://localhost:8188");
    assert_eq!(c.static_drive_path, "./static");
    assert_eq!(c.prompts_dir, "./prompts");
    assert_eq!(c.api_host, "127.0.0.1");
    assert_eq!(c.api_port, "8189");
    let c = Config::new(
        Some("http://engine".to_string()),
        None,
        Some(String::new()),
        Some("0.0.0.0".to_string()),
        Some("80".to_string()),
    );
    assert_eq!(c.comfyui_url, "http://engine");
    assert_eq!(c.static_drive_path, "./static");
    assert_eq!(c.prompts_dir, "");
    assert_eq!(c.api_host, "0.0.0.0");
    assert_eq!(c.api_port, "80");
}
