use comfyui_api_proxy::document::parse_document;
use comfyui_api_proxy::json::JsonValue;
use comfyui_api_proxy::utils::prompt_ops::{
    apply_params_map, apply_text_pos_neg, collect_clip_textencode_ids, ensure_filename_prefix,
    find_first_node_id_by_class, is_known_param_key, set_node_text,
    source_node_id_from_ksampler_input,
};

fn json(text: &str) -> JsonValue {
    parse_document(text).unwrap()
}

fn strings(items: &[&str]) -> Vec<String> {
    items.iter().map(|s| s.to_string()).collect()
}

const LINKED: &str = r#"{
    "3": {"class_type": "KSampler", "inputs": {"seed": 1, "positive": ["6", 0], "negative": ["7", 0]}},
    "6": {"class_type": "CLIPTextEncode", "inputs": {"text": "old positive"}},
    "7": {"class_type": "CLIPTextEncode", "inputs": {"text": "old negative"}}
}"#;

const UNLINKED: &str = r#"{
    "7": {"class_type": "CLIPTextEncode", "inputs": {"text": "old negative"}},
    "6": {"class_type": "CLIPTextEncode", "inputs": {"text": "old positive"}}
}"#;

#[test]
fn positive_text_follows_the_sampler_link() {
    let mut graph = json(LINKED);
    apply_params_map(&mut graph, &json(r#"{"text_positive": "a cat"}"#));
    assert_eq!(graph.get("6").unwrap().get("inputs").unwrap().get("text"), Some(&JsonValue::text("a cat")));
    assert_eq!(graph.get("7"), json(LINKED).get("7"));
    assert_eq!(graph.get("3"), json(LINKED).get("3"));
}

#[test]
fn texts_fall_back_to_the_encoders_in_order_of_their_ids() {
    let mut graph = json(UNLINKED);
    apply_params_map(&mut graph, &json(r#"{"text_positive": "a cat", "text_negative": "blurry"}"#));
    assert_eq!(
        graph,
        json(
            r#"{
            "7": {"class_type": "CLIPTextEncode", "inputs": {"text": "blurry"}},
            "6": {"class_type": "CLIPTextEncode", "inputs": {"text": "a cat"}}
        }"#
        )
    );
}

#[test]
fn both_texts_follow_their_links() {
    let mut graph = json(LINKED);
    let pos = JsonValue::text("a cat");
    let neg = JsonValue::text("blurry");
    apply_text_pos_neg(&mut graph, Some(&pos), Some(&neg));
    assert_eq!(graph.get("6").unwrap().get("inputs").unwrap().get("text"), Some(&pos));
    assert_eq!(graph.get("7").unwrap().get("inputs").unwrap().get("text"), Some(&neg));
}

#[test]
fn a_link_by_number_names_the_node_of_that_decimal_text() {
    let mut graph = json(
        r#"{
        "3": {"class_type": "KSampler", "inputs": {"positive": [7, 0], "negative": [-1, 0]}},
        "6": {"class_type": "CLIPTextEncode", "inputs": {}},
        "7": {"class_type": "CLIPTextEncode", "inputs": {}},
        "-1": {"class_type": "Other", "inputs": {}}
    }"#,
    );
    assert_eq!(source_node_id_from_ksampler_input(&graph, "3", "positive"), Some("7".to_string()));
    assert_eq!(source_node_id_from_ksampler_input(&graph, "3", "negative"), Some("-1".to_string()));
    let pos = JsonValue::text("p");
    let neg = JsonValue::text("n");
    apply_text_pos_neg(&mut graph, Some(&pos), Some(&neg));
    assert_eq!(graph.get("7").unwrap().get("inputs").unwrap().get("text"), Some(&pos));
    assert_eq!(graph.get("-1").unwrap().get("inputs").unwrap().get("text"), Some(&neg));
    assert_eq!(graph.get("6").unwrap().get("inputs").unwrap().get("text"), None);
}

#[test]
fn links_that_are_none_give_no_source() {
    let graph = json(
        r#"{
        "3": {"class_type": "KSampler", "inputs": {
            "empty": [], "float": [1.5, 0], "big": [18446744073709551615, 0], "null": [null, 0],
            "text": "6", "object": {"0": "6"}, "nested": [["6"], 0], "short": ["6"],
            "long": ["6", 0, 0], "slot_text": ["6", "0"], "slot_float": ["6", 0.5],
            "slot_null": ["6", null], "good": ["6", 1], "by_number": [6, 0]}},
        "4": {"class_type": "KSampler", "inputs": ["6", 0]},
        "5": {"class_type": "KSampler"},
        "6": 7
    }"#,
    );
    for name in [
        "empty", "float", "big", "null", "text", "object", "nested", "absent", "short", "long",
        "slot_text", "slot_float", "slot_null",
    ] {
        assert_eq!(source_node_id_from_ksampler_input(&graph, "3", name), None, "{}", name);
    }
    assert_eq!(source_node_id_from_ksampler_input(&graph, "3", "good"), Some("6".to_string()));
    assert_eq!(
        source_node_id_from_ksampler_input(&graph, "3", "by_number"),
        Some("6".to_string())
    );
    assert_eq!(source_node_id_from_ksampler_input(&graph, "4", "0"), None);
    assert_eq!(source_node_id_from_ksampler_input(&graph, "5", "positive"), None);
    assert_eq!(source_node_id_from_ksampler_input(&graph, "6", "positive"), None);
    assert_eq!(source_node_id_from_ksampler_input(&graph, "9", "positive"), None);
    assert_eq!(source_node_id_from_ksampler_input(&json("[1]"), "0", "positive"), None);
}

#[test]
fn a_side_whose_link_fails_falls_back_alone() {
    // The positive link is good; the negative one names a node without inputs.
    let mut graph = json(
        r#"{
        "3": {"class_type": "KSampler", "inputs": {"positive": ["20", 0], "negative": ["9", 0]}},
        "9": {"class_type": "Other"},
        "20": {"class_type": "CLIPTextEncode", "inputs": {}},
        "10": {"class_type": "CLIPTextEncode", "inputs": {}}
    }"#,
    );
    let pos = JsonValue::text("p");
    let neg = JsonValue::text("n");
    apply_text_pos_neg(&mut graph, Some(&pos), Some(&neg));
    // Sorted ids are "10", "20": the negative text goes to the second of them.
    assert_eq!(graph.get("20").unwrap().get("inputs").unwrap().get("text"), Some(&neg));
    assert_eq!(graph.get("10").unwrap().get("inputs").unwrap().get("text"), None);
    assert_eq!(graph.get("9"), Some(&json(r#"{"class_type": "Other"}"#)));
}

#[test]
fn a_text_without_a_target_is_dropped() {
    let text = r#"{"6": {"class_type": "CLIPTextEncode", "inputs": {}}, "1": {"class_type": "Other", "inputs": {}}}"#;
    let mut graph = json(text);
    let neg = JsonValue::text("n");
    apply_text_pos_neg(&mut graph, None, Some(&neg));
    assert_eq!(graph, json(text));

    let mut none = json(r#"{"1": {"class_type": "Other", "inputs": {}}}"#);
    let pos = JsonValue::text("p");
    apply_text_pos_neg(&mut none, Some(&pos), Some(&neg));
    assert_eq!(none, json(r#"{"1": {"class_type": "Other", "inputs": {}}}"#));

    let mut no_inputs = json(r#"{"6": {"class_type": "CLIPTextEncode"}}"#);
    apply_text_pos_neg(&mut no_inputs, Some(&pos), None);
    assert_eq!(no_inputs, json(r#"{"6": {"class_type": "CLIPTextEncode"}}"#));

    let mut not_a_graph = json("[1, 2]");
    apply_text_pos_neg(&mut not_a_graph, Some(&pos), Some(&neg));
    assert_eq!(not_a_graph, json("[1, 2]"));
}

#[test]
fn no_text_changes_nothing() {
    let mut graph = json(LINKED);
    apply_text_pos_neg(&mut graph, None, None);
    assert_eq!(graph, json(LINKED));
}

#[test]
fn only_the_first_sampler_is_followed() {
    let mut graph = json(
        r#"{
        "1": {"class_type": "KSampler", "inputs": {"positive": ["b", 0]}},
        "2": {"class_type": "KSampler", "inputs": {"positive": ["a", 0]}},
        "a": {"class_type": "CLIPTextEncode", "inputs": {}},
        "b": {"class_type": "CLIPTextEncode", "inputs": {}}
    }"#,
    );
    assert_eq!(find_first_node_id_by_class(&graph, "KSampler"), Some("1".to_string()));
    let pos = JsonValue::text("p");
    apply_text_pos_neg(&mut graph, Some(&pos), None);
    assert_eq!(graph.get("b").unwrap().get("inputs").unwrap().get("text"), Some(&pos));
    assert_eq!(graph.get("a").unwrap().get("inputs").unwrap().get("text"), None);
}

#[test]
fn the_first_node_of_a_class_is_found_in_entry_order() {
    let graph = json(
        r#"{"9": {"class_type": "A"}, "1": {"class_type": "B"}, "0": {"class_type": "A"},
            "x": {"class_type": 5}, "y": 3}"#,
    );
    assert_eq!(find_first_node_id_by_class(&graph, "A"), Some("9".to_string()));
    assert_eq!(find_first_node_id_by_class(&graph, "B"), Some("1".to_string()));
    assert_eq!(find_first_node_id_by_class(&graph, "C"), None);
    assert_eq!(find_first_node_id_by_class(&graph, "5"), None);
    assert_eq!(find_first_node_id_by_class(&json("[]"), "A"), None);
}

#[test]
fn encoder_ids_sort_as_text() {
    let graph = json(
        r#"{"2": {"class_type": "CLIPTextEncode"}, "10": {"class_type": "CLIPTextEncode"},
            "1": {"class_type": "KSampler"}, "b": {"class_type": "CLIPTextEncode"},
            "B": {"class_type": "CLIPTextEncode"}}"#,
    );
    assert_eq!(collect_clip_textencode_ids(&graph), strings(&["10", "2", "B", "b"]));
    assert_eq!(collect_clip_textencode_ids(&json("{}")), Vec::<String>::new());
    assert_eq!(collect_clip_textencode_ids(&json("7")), Vec::<String>::new());
}

#[test]
fn a_node_takes_a_text_only_into_an_inputs_object() {
    let mut graph = json(r#"{"a": {"inputs": {"text": 1, "k": 2}}, "b": {"inputs": []}, "c": {}, "d": 1}"#);
    let v = json(r#"["any", "value"]"#);
    assert!(set_node_text(&mut graph, "a", &v));
    assert!(!set_node_text(&mut graph, "b", &v));
    assert!(!set_node_text(&mut graph, "c", &v));
    assert!(!set_node_text(&mut graph, "d", &v));
    assert!(!set_node_text(&mut graph, "e", &v));
    assert_eq!(
        graph,
        json(r#"{"a": {"inputs": {"text": ["any", "value"], "k": 2}}, "b": {"inputs": []}, "c": {}, "d": 1}"#)
    );
}

#[test]
fn named_parameters_overwrite_inputs_that_are_there() {
    let mut graph = json(
        r#"{
        "3": {"class_type": "KSampler", "inputs": {"seed": 1, "steps": 20, "cfg": 7.5, "model": ["4", 0]}},
        "4": {"class_type": "CheckpointLoaderSimple", "inputs": {"ckpt_name": "a.safetensors"}},
        "5": {"class_type": "EmptyLatentImage", "inputs": {"width": 512, "height": 512, "batch_size": 1}},
        "8": {"class_type": "Other", "inputs": {"seed": "text"}},
        "9": {"class_type": "NoInputs"}
    }"#,
    );
    let params = json(
        r#"{"seed": 42, "steps": 30, "width": 1024, "ckpt_name": "b.safetensors",
            "filename_prefix": "x", "model": 1, "unknown": true, "denoise": 0.5}"#,
    );
    apply_params_map(&mut graph, &params);
    assert_eq!(
        graph,
        json(
            r#"{
        "3": {"class_type": "KSampler", "inputs": {"seed": 42, "steps": 30, "cfg": 7.5, "model": ["4", 0]}},
        "4": {"class_type": "CheckpointLoaderSimple", "inputs": {"ckpt_name": "b.safetensors"}},
        "5": {"class_type": "EmptyLatentImage", "inputs": {"width": 1024, "height": 512, "batch_size": 1}},
        "8": {"class_type": "Other", "inputs": {"seed": 42}},
        "9": {"class_type": "NoInputs"}
    }"#
        )
    );
}

#[test]
fn broadcast_adds_no_input() {
    let text = r#"{"1": {"inputs": {}}, "2": {"inputs": {"other": 1}}, "3": {}, "4": 5}"#;
    let mut graph = json(text);
    let params = json(
        r#"{"seed": 1, "steps": 2, "cfg": 3, "sampler_name": "a", "scheduler": "b", "denoise": 1,
            "width": 1, "height": 1, "batch_size": 1, "ckpt_name": "c", "text": "t"}"#,
    );
    apply_params_map(&mut graph, &params);
    assert_eq!(graph, json(text));
}

#[test]
fn the_text_parameter_goes_to_every_text_input() {
    let mut graph = json(LINKED);
    apply_params_map(&mut graph, &json(r#"{"text": "same", "text_positive": "a cat"}"#));
    assert_eq!(graph.get("6").unwrap().get("inputs").unwrap().get("text"), Some(&JsonValue::text("same")));
    assert_eq!(graph.get("7").unwrap().get("inputs").unwrap().get("text"), Some(&JsonValue::text("same")));
}

#[test]
fn parameters_that_are_no_object_change_nothing() {
    for params in ["[1]", "5", "null", "\"seed\"", "{}"] {
        let mut graph = json(LINKED);
        apply_params_map(&mut graph, &json(params));
        assert_eq!(graph, json(LINKED));
    }
    let mut not_a_graph = json("[{\"inputs\": {\"seed\": 1}}]");
    apply_params_map(&mut not_a_graph, &json(r#"{"seed": 2}"#));
    assert_eq!(not_a_graph, json("[{\"inputs\": {\"seed\": 1}}]"));
}

#[test]
fn known_parameters_are_the_eleven_names() {
    for key in [
        "seed", "steps", "cfg", "sampler_name", "scheduler", "denoise", "width", "height",
        "batch_size", "ckpt_name", "text",
    ] {
        assert!(is_known_param_key(key), "{}", key);
    }
    for key in ["", "Seed", "text_positive", "text_negative", "filename_prefix", "seeds"] {
        assert!(!is_known_param_key(key), "{}", key);
    }
}

#[test]
fn a_save_node_without_prefix_gets_the_default() {
    let mut graph = json(
        r#"{
        "9": {"class_type": "SaveImage", "inputs": {"images": ["8", 0]}},
        "10": {"class_type": "SaveImage", "inputs": {"filename_prefix": "X", "images": ["8", 0]}},
        "11": {"class_type": "PreviewImage", "inputs": {}},
        "12": {"class_type": "SaveImage"},
        "13": {"class_type": "SaveImage", "inputs": []},
        "14": {"inputs": {}},
        "15": "SaveImage"
    }"#,
    );
    ensure_filename_prefix(&mut graph, "Derivata");
    assert_eq!(
        graph,
        json(
            r#"{
        "9": {"class_type": "SaveImage", "inputs": {"images": ["8", 0], "filename_prefix": "Derivata"}},
        "10": {"class_type": "SaveImage", "inputs": {"filename_prefix": "X", "images": ["8", 0]}},
        "11": {"class_type": "PreviewImage", "inputs": {}},
        "12": {"class_type": "SaveImage"},
        "13": {"class_type": "SaveImage", "inputs": []},
        "14": {"inputs": {}},
        "15": "SaveImage"
    }"#
        )
    );
}

#[test]
fn giving_the_default_prefix_twice_is_giving_it_once() {
    let mut once = json(r#"{"9": {"class_type": "SaveImage", "inputs": {}}, "1": {"class_type": "SaveImage", "inputs": {"filename_prefix": null}}}"#);
    ensure_filename_prefix(&mut once, "Derivata");
    let mut twice = once.clone();
    ensure_filename_prefix(&mut twice, "Derivata");
    assert_eq!(twice, once);
    ensure_filename_prefix(&mut twice, "Other");
    assert_eq!(twice, once);
    assert_eq!(
        once,
        json(r#"{"9": {"class_type": "SaveImage", "inputs": {"filename_prefix": "Derivata"}}, "1": {"class_type": "SaveImage", "inputs": {"filename_prefix": null}}}"#)
    );
}

#[test]
fn a_graph_that_is_no_object_gets_no_prefix() {
    let mut graph = json(r#"[{"class_type": "SaveImage", "inputs": {}}]"#);
    ensure_filename_prefix(&mut graph, "Derivata");
    assert_eq!(graph, json(r#"[{"class_type": "SaveImage", "inputs": {}}]"#));
}

#[test]
fn routing_adds_the_text_input_and_no_other() {
    let mut graph = json(
        r#"{
        "3": {"class_type": "KSampler", "inputs": {"positive": ["6", 0], "negative": ["7", 0]}},
        "6": {"class_type": "CLIPTextEncode", "inputs": {"clip": ["4", 1]}},
        "7": {"class_type": "CLIPTextEncode", "inputs": {}}
    }"#,
    );
    apply_params_map(&mut graph, &json(r#"{"text_positive": "p", "text_negative": "n", "seed": 9}"#));
    assert_eq!(
        graph,
        json(
            r#"{
        "3": {"class_type": "KSampler", "inputs": {"positive": ["6", 0], "negative": ["7", 0]}},
        "6": {"class_type": "CLIPTextEncode", "inputs": {"clip": ["4", 1], "text": "p"}},
        "7": {"class_type": "CLIPTextEncode", "inputs": {"text": "n"}}
    }"#
        )
    );
}

#[test]
fn a_link_of_one_item_is_no_link() {
    let graph = json(r#"{"3": {"class_type": "KSampler", "inputs": {"positive": ["6"]}}}"#);
    assert_eq!(source_node_id_from_ksampler_input(&graph, "3", "positive"), None);
}

#[test]
fn a_malformed_link_sends_its_side_to_the_fallback() {
    let mut graph = json(
        r#"{
        "3": {"class_type": "KSampler", "inputs": {"positive": ["9"], "negative": ["9", 0]}},
        "5": {"class_type": "CLIPTextEncode", "inputs": {}},
        "9": {"class_type": "CLIPTextEncode", "inputs": {}}
    }"#,
    );
    let pos = JsonValue::text("p");
    let neg = JsonValue::text("n");
    apply_text_pos_neg(&mut graph, Some(&pos), Some(&neg));
    // The positive side has no link and takes the first encoder by id; the
    // negative side follows its link.
    assert_eq!(graph.get("5").unwrap().get("inputs").unwrap().get("text"), Some(&pos));
    assert_eq!(graph.get("9").unwrap().get("inputs").unwrap().get("text"), Some(&neg));
}
