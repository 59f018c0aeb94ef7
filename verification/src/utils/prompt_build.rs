//! From a request to the prompt that is sent: where the prompt comes from,
//! the overrides that the request asks for, and the defaults.
use crate::document::{json_document, outcome_view, parse_document};
use crate::json::{
    array_view, lemma_position, lemma_with_member, lemma_with_member_same, put, put_all, Json,
    JsonValue, Object,
};
use crate::text::{append_text, first_where, strip_trailing, trim_end_matches, views};
use crate::utils::laws::{
    lemma_apply_sets_well_formed, lemma_set_path_keeps_members, lemma_with_params_well_formed,
};
use crate::utils::prompt_ops::{
    apply_params, apply_params_map, apply_set_path, default_prefix_fn, ensure_filename_prefix,
    malformed, malformed_message, map_nodes, pairs_model, parse_set_pairs, path_settable,
    reading_at, set_pair, set_path, set_value_texts, value_text, FloatReading,
};
use vstd::prelude::*;

verus! {

/// The object whose one member, `prompt`, is `graph`.
pub open spec fn wrapped(graph: Json) -> Json {
    Json::Object(seq![("prompt"@, graph)])
}

/// The envelope around a graph: the object whose one member, `prompt`, is
/// `graph`.
pub fn wrap_prompt(graph: JsonValue) -> (root: JsonValue)
    ensures
        root@ == wrapped(graph@),
{
    let mut envelope = Object::new();
    envelope.insert("prompt".to_owned(), graph);
    proof {
        lemma_position(Seq::empty(), "prompt"@);
        assert(envelope@ =~= seq![("prompt"@, graph@)]);
    }
    JsonValue::Object(envelope)
}

/// Where the prompt of a request comes from.
#[derive(Debug, PartialEq, Eq)]
pub enum PromptRoot {
    /// The request brought the prompt; this is the envelope around it.
    Ready(JsonValue),
    /// The request names a workflow; this is the path of the file to read.
    Workflow(String),
}

/// What a [`PromptRoot`] stands for.
pub enum PromptSource {
    Ready(Json),
    Workflow(Seq<char>),
}

impl View for PromptRoot {
    type V = PromptSource;

    open spec fn view(&self) -> PromptSource {
        match self {
            PromptRoot::Ready(root) => PromptSource::Ready(root@),
            PromptRoot::Workflow(path) => PromptSource::Workflow(path@),
        }
    }
}

/// The path of the file of workflow `name` below `prompts_dir`.
pub open spec fn workflow_path(prompts_dir: Seq<char>, name: Seq<char>) -> Seq<char> {
    strip_trailing(prompts_dir, '/') + "/"@ + name + ".json"@
}

/// Where the prompt of a request comes from, or the message of the refusal.
pub open spec fn prompt_source(payload: Json, prompts_dir: Seq<char>) -> Result<
    PromptSource,
    Seq<char>,
> {
    match payload.get("prompt"@) {
        Some(prompt) => Ok(PromptSource::Ready(wrapped(prompt))),
        None => match payload.get("workflow"@) {
            Some(Json::String(name)) => Ok(
                PromptSource::Workflow(workflow_path(prompts_dir, name)),
            ),
            _ => Err("Either 'prompt' or 'workflow' must be provided"@),
        },
    }
}

/// What a decision on the source of the prompt stands for.
pub open spec fn source_view(r: Result<PromptRoot, String>) -> Result<PromptSource, Seq<char>> {
    match r {
        Ok(root) => Ok(root@),
        Err(message) => Err(message@),
    }
}

/// Decides where the prompt of a request comes from. A request with a
/// `prompt` member brings it, and the envelope around it is ready. Else the
/// request must name a `workflow` by a string: the file to read is
/// `<prompts_dir>/<workflow>.json`, the slashes at the end of `prompts_dir`
/// left out. What the file holds goes to [`prompt_root_from_workflow`].
pub fn resolve_prompt_root_from_payload(payload: &JsonValue, prompts_dir: &str) -> (r: Result<
    PromptRoot,
    String,
>)
    ensures
        source_view(r) == prompt_source(payload@, prompts_dir@),
{
    match payload.get("prompt") {
        Some(prompt) => Ok(PromptRoot::Ready(wrap_prompt(prompt.clone()))),
        None => {
            let name = match payload.get("workflow") {
                Some(member) => match member.as_str() {
                    Some(name) => name,
                    None => return Err("Either 'prompt' or 'workflow' must be provided".to_owned()),
                },
                None => return Err("Either 'prompt' or 'workflow' must be provided".to_owned()),
            };
            let dir = trim_end_matches(prompts_dir, '/');
            let with_slash = append_text(dir.as_str(), "/");
            let with_name = append_text(with_slash.as_str(), name);
            Ok(PromptRoot::Workflow(append_text(with_name.as_str(), ".json")))
        },
    }
}

/// The envelope that the text of a workflow file gives, or the message of
/// the failure: the document itself where it has a `prompt` member, else the
/// envelope around it.
pub open spec fn workflow_root(document: Result<Json, Seq<char>>) -> Result<Json, Seq<char>> {
    match document {
        Ok(workflow) => if workflow.get("prompt"@).is_some() {
            Ok(workflow)
        } else {
            Ok(wrapped(workflow))
        },
        Err(message) => Err("Failed to parse workflow JSON: "@ + message),
    }
}

/// The envelope that a workflow gives, from what reading its file as a JSON
/// document came to.
pub fn prompt_root_from_document(document: Result<JsonValue, String>) -> (r: Result<
    JsonValue,
    String,
>)
    ensures
        outcome_view(r) == workflow_root(outcome_view(document)),
{
    match document {
        Ok(workflow) => {
            if workflow.get("prompt").is_some() {
                Ok(workflow)
            } else {
                Ok(wrap_prompt(workflow))
            }
        },
        Err(message) => Err(append_text("Failed to parse workflow JSON: ", message.as_str())),
    }
}

/// The envelope that the text of a workflow file gives: the JSON document
/// that it is where that has a `prompt` member, else the envelope around it.
/// Fails where the text is no JSON document.
pub fn prompt_root_from_workflow(content: &str) -> (r: Result<JsonValue, String>)
    ensures
        outcome_view(r) == workflow_root(json_document(content@)),
{
    prompt_root_from_document(parse_document(content))
}

/// The test for being an entry whose value is an object with a string as
/// its `class_type`.
pub open spec fn is_node(value: Json) -> bool {
    value is Object && value.get("class_type"@) matches Some(Json::String(_))
}

/// Whether `graph` looks like a prompt graph: it is an object, and at least
/// one of its members is an object whose `class_type` is a string.
pub fn is_probably_graph(graph: &JsonValue) -> (r: bool)
    ensures
        r == exists|i: int|
            0 <= i < graph@.entries().len() && is_node((#[trigger] graph@.entries()[i]).1),
{
    match graph.as_object() {
        Some(obj) => {
            let mut i: usize = 0;
            while i < obj.len()
                invariant
                    i <= obj@.len(),
                    graph@ == Json::Object(obj@),
                    forall|k: int| 0 <= k < i ==> !is_node((#[trigger] obj@[k]).1),
                decreases obj@.len() - i,
            {
                let v = obj.value_at(i);
                if v.is_object() {
                    match v.get("class_type") {
                        Some(class) => {
                            if class.as_str().is_some() {
                                assert(is_node(graph@.entries()[i as int].1));
                                return true;
                            }
                        },
                        None => {},
                    }
                }
                i += 1;
            }
            false
        },
        None => false,
    }
}

/// The name of the default filename prefix.
pub open spec fn prefix_or_default(filename_prefix: Option<&str>) -> Seq<char> {
    match filename_prefix {
        Some(prefix) => prefix@,
        None => "Derivata"@,
    }
}

/// The envelope with the default filename prefix given to its graph.
pub open spec fn with_defaults(root: Json, prefix: Seq<char>) -> Json {
    match root.get("prompt"@) {
        Some(graph) => root.with_member("prompt"@, map_nodes(graph, default_prefix_fn(prefix))),
        None => root,
    }
}

/// Gives the `SaveImage` nodes of the graph under `prompt` their default
/// filename prefix, as [`ensure_filename_prefix`] does: `filename_prefix`,
/// or `Derivata` where none is given. An envelope without `prompt` is left
/// as it is.
pub fn ensure_defaults_on_root(root: &mut JsonValue, filename_prefix: Option<&str>)
    ensures
        final(root)@ == with_defaults(old(root)@, prefix_or_default(filename_prefix)),
{
    match root.get_mut("prompt") {
        Some(graph) => {
            let default_prefix = match filename_prefix {
                Some(prefix) => prefix,
                None => "Derivata",
            };
            ensure_filename_prefix(graph, default_prefix);
        },
        None => {},
    }
}

/// The parameters with the member of the request under `key`, if it has one.
pub open spec fn take_key(
    params: Seq<(Seq<char>, Json)>,
    payload: Json,
    key: Seq<char>,
) -> Seq<(Seq<char>, Json)> {
    match payload.get(key) {
        Some(value) => put(params, key, value),
        None => params,
    }
}

/// The parameters that a request asks for: the members of its `params`
/// object, then each named parameter, `text_positive` and `text_negative`
/// that the request itself has as a member, which goes before a member of
/// `params` of the same name.
pub open spec fn merged_params(payload: Json) -> Seq<(Seq<char>, Json)> {
    let from_params = match payload.get("params"@) {
        Some(Json::Object(entries)) => put_all(Seq::empty(), entries),
        _ => Seq::empty(),
    };
    let with_seed = take_key(from_params, payload, "seed"@);
    let with_steps = take_key(with_seed, payload, "steps"@);
    let with_cfg = take_key(with_steps, payload, "cfg"@);
    let with_sampler_name = take_key(with_cfg, payload, "sampler_name"@);
    let with_scheduler = take_key(with_sampler_name, payload, "scheduler"@);
    let with_denoise = take_key(with_scheduler, payload, "denoise"@);
    let with_width = take_key(with_denoise, payload, "width"@);
    let with_height = take_key(with_width, payload, "height"@);
    let with_batch_size = take_key(with_height, payload, "batch_size"@);
    let with_ckpt_name = take_key(with_batch_size, payload, "ckpt_name"@);
    let with_text = take_key(with_ckpt_name, payload, "text"@);
    let with_text_positive = take_key(with_text, payload, "text_positive"@);
    take_key(with_text_positive, payload, "text_negative"@)
}

/// Puts the member of the request under `key`, if it has one, into `params`.
fn take_from_payload(params: &mut Object, payload: &JsonValue, key: &str)
    ensures
        final(params)@ == take_key(old(params)@, payload@, key@),
{
    match payload.get(key) {
        Some(value) => params.insert(key.to_owned(), value.clone()),
        None => {},
    }
}

/// The parameters that a request asks for.
pub fn params_from_payload(payload: &JsonValue) -> (params: Object)
    ensures
        params@ == merged_params(payload@),
{
    let mut params = Object::new();
    match payload.get("params") {
        Some(member) => match member.as_object() {
            Some(given) => {
                let mut i: usize = 0;
                assert(given@.take(0) =~= Seq::empty());
                while i < given.len()
                    invariant
                        i <= given@.len(),
                        params@ == put_all(Seq::empty(), given@.take(i as int)),
                    decreases given@.len() - i,
                {
                    assert(given@.take(i + 1).drop_last() =~= given@.take(i as int));
                    params.insert(given.key_at(i).clone(), given.value_at(i).clone());
                    i += 1;
                }
                assert(given@.take(i as int) =~= given@);
            },
            None => {},
        },
        None => {},
    }
    take_from_payload(&mut params, payload, "seed");
    take_from_payload(&mut params, payload, "steps");
    take_from_payload(&mut params, payload, "cfg");
    take_from_payload(&mut params, payload, "sampler_name");
    take_from_payload(&mut params, payload, "scheduler");
    take_from_payload(&mut params, payload, "denoise");
    take_from_payload(&mut params, payload, "width");
    take_from_payload(&mut params, payload, "height");
    take_from_payload(&mut params, payload, "batch_size");
    take_from_payload(&mut params, payload, "ckpt_name");
    take_from_payload(&mut params, payload, "text");
    take_from_payload(&mut params, payload, "text_positive");
    take_from_payload(&mut params, payload, "text_negative");
    params
}

/// The envelope after the parameters of the request were applied to its
/// graph. Without parameters, or without `prompt`, nothing changes.
pub open spec fn with_params(root: Json, payload: Json) -> Json {
    let params = merged_params(payload);
    match root.get("prompt"@) {
        Some(graph) if params.len() > 0 => root.with_member(
            "prompt"@,
            apply_params(graph, Json::Object(params)),
        ),
        _ => root,
    }
}

/// The texts of the strings among `items`, in their order.
pub open spec fn strings_of(items: Seq<Json>) -> Seq<Seq<char>>
    decreases items.len(),
{
    if items.len() == 0 {
        Seq::empty()
    } else {
        match items.last() {
            Json::String(s) => strings_of(items.drop_last()).push(s),
            _ => strings_of(items.drop_last()),
        }
    }
}

/// The override items of a request: the strings of its `sets` array.
pub open spec fn set_items(payload: Json) -> Seq<Seq<char>> {
    match payload.get("sets"@) {
        Some(Json::Array(items)) => strings_of(items),
        _ => Seq::empty(),
    }
}

/// The override items of a request: the strings of its `sets` array, in
/// their order. What else the array holds is passed over.
pub fn payload_set_items(payload: &JsonValue) -> (items: Vec<String>)
    ensures
        views(items@) == set_items(payload@),
{
    let mut out: Vec<String> = Vec::new();
    assert(views(out@) =~= Seq::<Seq<char>>::empty());
    match payload.get("sets") {
        Some(member) => match member.as_array() {
            Some(items) => {
                let mut i: usize = 0;
                assert(array_view(items@).take(0) =~= Seq::empty());
                while i < items.len()
                    invariant
                        i <= items@.len(),
                        views(out@) == strings_of(array_view(items@).take(i as int)),
                    decreases items@.len() - i,
                {
                    let ghost before = views(out@);
                    assert(array_view(items@).take(i + 1).drop_last() =~= array_view(items@).take(
                        i as int,
                    ));
                    assert(array_view(items@).take(i + 1).last() == items@[i as int]@);
                    match items[i].as_str() {
                        Some(s) => {
                            out.push(s.to_owned());
                            assert(views(out@) =~= before.push(s@));
                        },
                        None => {},
                    }
                    i += 1;
                }
                assert(array_view(items@).take(i as int) =~= array_view(items@));
            },
            None => {},
        },
        None => {},
    }
    out
}

/// The texts that the caller's reader of binary64 numbers is to read before
/// [`apply_overrides_from_payload`] is called: for each override item of the
/// request what follows its first `=`.
pub fn payload_set_value_texts(payload: &JsonValue) -> (texts: Vec<String>)
    ensures
        texts@.len() == set_items(payload@).len(),
        forall|i: int|
            0 <= i < texts@.len() ==> (#[trigger] texts@[i])@ == value_text(set_items(payload@)[i]),
{
    let items = payload_set_items(payload);
    let texts = set_value_texts(items.as_slice());
    assert forall|i: int| 0 <= i < texts@.len() implies (#[trigger] texts@[i])@ == value_text(
        set_items(payload@)[i],
    ) by {
        assert(views(items@)[i] == items@[i]@);
    }
    texts
}

/// Whether the first segment of `path` is not found in `graph`: the graph
/// has no member of that name. Only such a path is tried on what wraps the
/// graph; a path that begins in the graph and fails further down is not.
pub open spec fn first_segment_missing(graph: Json, path: Seq<Seq<char>>) -> bool {
    path.len() > 0 && graph.get(path[0]).is_none()
}

/// Whether the first segment of `path` is not found in `graph`.
pub fn is_first_segment_missing(graph: &JsonValue, path: &[String]) -> (r: bool)
    ensures
        r == first_segment_missing(graph@, views(path@)),
{
    if path.len() == 0 {
        return false;
    }
    assert(views(path@)[0] == path@[0]@);
    graph.get(path[0].as_str()).is_none()
}

/// The envelope after one override. The value is set in the graph under
/// `prompt` where the path can be set there. Where it cannot, and the first
/// segment of the path is not found in the graph, the value is set in the
/// envelope itself, where the path can be set there. In every other case,
/// and for an envelope without `prompt`, nothing changes.
pub open spec fn apply_set(root: Json, path: Seq<Seq<char>>, value: Json) -> Json {
    match root.get("prompt"@) {
        Some(graph) => if path_settable(graph, path) {
            root.with_member("prompt"@, set_path(graph, path, value))
        } else if first_segment_missing(graph, path) && path_settable(root, path) {
            set_path(root, path, value)
        } else {
            root
        },
        None => root,
    }
}

/// The envelope after the overrides were applied, first to last.
pub open spec fn apply_sets(root: Json, pairs: Seq<(Seq<Seq<char>>, Json)>) -> Json
    decreases pairs.len(),
{
    if pairs.len() == 0 {
        root
    } else {
        apply_set(apply_sets(root, pairs.drop_last()), pairs.last().0, pairs.last().1)
    }
}

/// The paths and values that override items stand for, given the readings
/// of their value texts.
pub open spec fn set_pairs(items: Seq<Seq<char>>, floats: Seq<FloatReading>) -> Seq<
    (Seq<Seq<char>>, Json),
> {
    Seq::new(items.len(), |i: int| set_pair(items[i], reading_at(floats, i)))
}

/// What applying the overrides of a request to an envelope comes to: the
/// envelope that results, or the message of the failure.
///
/// The parameters are applied first. Then, if the request has override
/// items: an item without `=` fails the batch, with the message that names
/// the first such item; an envelope without `prompt` fails it too; else the
/// items are applied first to last.
pub open spec fn overridden(root: Json, payload: Json, floats: Seq<FloatReading>) -> Result<
    Json,
    Seq<char>,
> {
    let with_params = with_params(root, payload);
    let items = set_items(payload);
    let bad = first_where(items, malformed());
    if items.len() == 0 {
        Ok(with_params)
    } else if 0 <= bad < items.len() {
        Err(malformed_message(items[bad]))
    } else if with_params.get("prompt"@).is_none() {
        Err("Missing 'prompt' in body"@)
    } else {
        Ok(apply_sets(with_params, set_pairs(items, floats)))
    }
}

/// Applies the overrides that a request asks for to the envelope `root`.
///
/// The parameters of the request, [`merged_params`], are applied to the graph
/// under `prompt` as [`apply_params_map`] does. Then the override items of
/// the request, the strings of its `sets` array, are parsed as
/// [`parse_set_pairs`] does, `floats[i]` being what the caller's reader of
/// binary64 numbers made of the `i`-th of [`payload_set_value_texts`], and
/// applied first to last: each to the graph, or, where the first segment of
/// its path is not found in the graph, to the envelope. An item whose path
/// can be set in neither changes nothing, and is no failure.
///
/// Fails where an item has no `=`, before any item is applied, and where
/// there are items and the envelope has no `prompt`. After a failure the
/// envelope holds the parameters and no override.
pub fn apply_overrides_from_payload(
    root: &mut JsonValue,
    payload: &JsonValue,
    floats: &[FloatReading],
) -> (r: Result<(), String>)
    ensures
        match r {
            Ok(()) => overridden(old(root)@, payload@, floats@) == Ok::<Json, Seq<char>>(
                final(root)@,
            ),
            Err(message) => {
                &&& overridden(old(root)@, payload@, floats@) == Err::<Json, Seq<char>>(message@)
                &&& final(root)@ == with_params(old(root)@, payload@)
            },
        },
        old(root)@.well_formed() && payload@.well_formed() ==> final(root)@.well_formed(),
{
    let params = params_from_payload(payload);
    if !params.is_empty() {
        match root.get_mut("prompt") {
            Some(graph) => {
                apply_params_map(graph, &JsonValue::Object(params));
            },
            None => {},
        }
    }
    proof {
        if old(root)@.well_formed() && payload@.well_formed() {
            lemma_with_params_well_formed(old(root)@, payload@);
        }
    }
    let items = payload_set_items(payload);
    if items.len() == 0 {
        return Ok(());
    }
    let pairs = match parse_set_pairs(items.as_slice(), floats) {
        Ok(pairs) => pairs,
        Err(message) => {
            return Err(message);
        },
    };
    let ghost start = root@;
    let ghost wanted = set_pairs(set_items(payload@), floats@);
    proof {
        assert(pairs_model(pairs@) =~= wanted) by {
            assert forall|k: int| 0 <= k < wanted.len() implies pairs_model(pairs@)[k]
                == wanted[k] by {
                assert(views(items@)[k] == items@[k]@);
            }
        }
    }
    if root.get("prompt").is_none() {
        return Err("Missing 'prompt' in body".to_owned());
    }
    let mut i: usize = 0;
    assert(wanted.take(0) =~= Seq::empty());
    while i < pairs.len()
        invariant
            i <= pairs@.len(),
            pairs_model(pairs@) == wanted,
            root@.get("prompt"@).is_some(),
            root@ == apply_sets(start, wanted.take(i as int)),
        decreases pairs@.len() - i,
    {
        let ghost held = root@;
        let ghost path = views(pairs@[i as int].0@);
        let ghost value = pairs@[i as int].1@;
        proof {
            assert(wanted.take(i + 1).drop_last() =~= wanted.take(i as int));
            assert(wanted.take(i + 1).last() == pairs_model(pairs@)[i as int]);
            assert(pairs_model(pairs@)[i as int] == (path, value));
        }
        let mut applied_to_graph = false;
        let mut try_envelope = false;
        match root.get_mut("prompt") {
            Some(graph) => {
                applied_to_graph =
                apply_set_path(graph, pairs[i].0.as_slice(), pairs[i].1.clone());
                if !applied_to_graph {
                    try_envelope = is_first_segment_missing(graph, pairs[i].0.as_slice());
                }
                proof {
                    lemma_with_member_same(held, "prompt"@);
                }
            },
            None => {},
        }
        if !applied_to_graph {
            if try_envelope {
                let _ = apply_set_path(root, pairs[i].0.as_slice(), pairs[i].1.clone());
                proof {
                    lemma_set_path_keeps_members(held, path, value, "prompt"@);
                }
            }
        } else {
            proof {
                let graph = held.get("prompt"@).unwrap();
                lemma_with_member(held, "prompt"@, set_path(graph, path, value), "prompt"@);
            }
        }
        i += 1;
    }
    assert(wanted.take(i as int) =~= wanted);
    proof {
        if start.well_formed() {
            assert forall|k: int| 0 <= k < wanted.len() implies (#[trigger] wanted[k]).1.well_formed() by {
                assert(pairs_model(pairs@)[k].1.well_formed());
            }
            lemma_apply_sets_well_formed(start, wanted);
        }
    }
    Ok(())
}

/// A graph, the document that it was taken from, and the overrides that
/// neither of them took, by their index.
pub struct Applied {
    pub graph: Json,
    pub document: Json,
    pub refused: Seq<int>,
}

/// The graph and the document after the overrides were applied, first to
/// last. Each is set in the graph where its path can be set there. Where it
/// cannot, and the first segment of the path is not found in the graph, it
/// is set in the document, where the path can be set there. In every other
/// case it is refused, and changes nothing.
pub open spec fn apply_pairs(
    graph: Json,
    document: Json,
    pairs: Seq<(Seq<Seq<char>>, Json)>,
) -> Applied
    decreases pairs.len(),
{
    if pairs.len() == 0 {
        Applied { graph, document, refused: Seq::empty() }
    } else {
        let before = apply_pairs(graph, document, pairs.drop_last());
        let (path, value) = pairs.last();
        if path_settable(before.graph, path) {
            Applied { graph: set_path(before.graph, path, value), ..before }
        } else if first_segment_missing(before.graph, path) && path_settable(
            before.document,
            path,
        ) {
            Applied { document: set_path(before.document, path, value), ..before }
        } else {
            Applied { refused: before.refused.push(pairs.len() - 1), ..before }
        }
    }
}

/// The indices as integers.
pub open spec fn indices(v: Seq<usize>) -> Seq<int> {
    Seq::new(v.len(), |i: int| v[i] as int)
}

/// Applies overrides to a graph that was taken out of `document`: each to
/// the graph, or, where the first segment of its path is not found in the
/// graph, to the document. Returns the indices of the overrides that were
/// set in neither.
pub fn apply_set_pairs(
    graph: &mut JsonValue,
    document: &mut JsonValue,
    pairs: &[(Vec<String>, JsonValue)],
) -> (refused: Vec<usize>)
    ensures
        final(graph)@ == apply_pairs(old(graph)@, old(document)@, pairs_model(pairs@)).graph,
        final(document)@ == apply_pairs(old(graph)@, old(document)@, pairs_model(pairs@)).document,
        indices(refused@) == apply_pairs(old(graph)@, old(document)@, pairs_model(pairs@)).refused,
{
    let ghost all = pairs_model(pairs@);
    let mut refused: Vec<usize> = Vec::new();
    let mut i: usize = 0;
    assert(all.take(0) =~= Seq::empty());
    assert(indices(refused@) =~= Seq::<int>::empty());
    while i < pairs.len()
        invariant
            i <= pairs@.len(),
            all == pairs_model(pairs@),
            graph@ == apply_pairs(old(graph)@, old(document)@, all.take(i as int)).graph,
            document@ == apply_pairs(old(graph)@, old(document)@, all.take(i as int)).document,
            indices(refused@) == apply_pairs(
                old(graph)@,
                old(document)@,
                all.take(i as int),
            ).refused,
        decreases pairs@.len() - i,
    {
        let ghost held = indices(refused@);
        proof {
            assert(all.take(i + 1).drop_last() =~= all.take(i as int));
            assert(all.take(i + 1).last() == all[i as int]);
            assert(all[i as int] == (views(pairs@[i as int].0@), pairs@[i as int].1@));
        }
        if !apply_set_path(graph, pairs[i].0.as_slice(), pairs[i].1.clone()) {
            if !is_first_segment_missing(graph, pairs[i].0.as_slice()) || !apply_set_path(
                document,
                pairs[i].0.as_slice(),
                pairs[i].1.clone(),
            ) {
                refused.push(i);
                assert(indices(refused@) =~= held.push(i as int));
            }
        }
        i += 1;
    }
    assert(all.take(i as int) =~= all);
    refused
}

} // verus!
