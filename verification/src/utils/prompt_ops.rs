//! Overrides on a prompt graph: values set by dot path, named parameters
//! broadcast over the nodes, text routed to the encoders that the sampler
//! links to, and the default filename prefix.
use crate::document::{json_document, outcome_view, parse_document};
use crate::json::{
    has_key, int_in_i64, keys, lemma_with_member_same, lookup, put, Json, JsonNumber, JsonValue,
    Number, Object,
};
use crate::text::{
    append_text, ascending, decimal_i64, decimal_text, eq_ignoring_ascii_case, first_where,
    i64_to_string, index_of_char, lemma_first_where_is, lemma_sort_texts, parse_i64,
    sort_strings, sort_texts, split, split_on, split_once, str_eq, str_eq_ignore_ascii_case,
    views,
};
use vstd::prelude::*;

verus! {

/// Whether a value can be set at `path` below `root`. The path must not be
/// empty, each segment but the last must name a member that is there, and the
/// value that the walk arrives at must be an object. A member that is missing
/// on the way is not created.
pub open spec fn path_settable(root: Json, path: Seq<Seq<char>>) -> bool
    decreases path.len(),
{
    if path.len() == 0 {
        false
    } else if path.len() == 1 {
        root is Object
    } else {
        match root.get(path[0]) {
            Some(child) => path_settable(child, path.drop_first()),
            None => false,
        }
    }
}

/// `root` with `value` under the last segment of `path`, in the object that
/// the segments before it lead to.
pub open spec fn set_path(root: Json, path: Seq<Seq<char>>, value: Json) -> Json
    decreases path.len(),
{
    if path.len() == 0 {
        root
    } else if path.len() == 1 {
        match root {
            Json::Object(entries) => Json::Object(put(entries, path[0], value)),
            _ => root,
        }
    } else {
        match root.get(path[0]) {
            Some(child) => root.with_member(path[0], set_path(child, path.drop_first(), value)),
            None => root,
        }
    }
}

/// The value that `path` leads to below `root`.
pub open spec fn get_path(root: Json, path: Seq<Seq<char>>) -> Option<Json>
    decreases path.len(),
{
    if path.len() == 0 {
        Some(root)
    } else {
        match root.get(path[0]) {
            Some(child) => get_path(child, path.drop_first()),
            None => None,
        }
    }
}

/// Sets `new_val` at `path[i..]` below `cur`.
fn set_path_from(cur: &mut JsonValue, path: &[String], i: usize, new_val: JsonValue) -> (applied:
    bool)
    requires
        i < path@.len(),
    ensures
        applied == path_settable(old(cur)@, views(path@).skip(i as int)),
        applied ==> final(cur)@ == set_path(old(cur)@, views(path@).skip(i as int), new_val@),
        !applied ==> final(cur)@ == old(cur)@,
    decreases path@.len() - i,
{
    let ghost rest = views(path@).skip(i as int);
    assert(rest[0] == path@[i as int]@);
    if i == path.len() - 1 {
        assert(rest.len() == 1);
        match cur.as_object_mut() {
            Some(map) => {
                map.insert(path[i].clone(), new_val);
                true
            },
            None => false,
        }
    } else {
        assert(rest.len() > 1);
        assert(rest.drop_first() =~= views(path@).skip(i + 1));
        match cur.get_mut(path[i].as_str()) {
            Some(next) => {
                let applied = set_path_from(next, path, i + 1, new_val);
                proof {
                    lemma_with_member_same(old(cur)@, rest[0]);
                }
                applied
            },
            None => false,
        }
    }
}

/// Sets `new_val` at `path` below `root`, and says whether it did. Each
/// segment but the last must name a member that is already there; the value
/// that they lead to must be an object, which then gets `new_val` under the
/// last segment, in the place of what was there or as a new last entry.
/// Where that fails, and for an empty path, `root` is left as it was.
pub fn apply_set_path(root: &mut JsonValue, path: &[String], new_val: JsonValue) -> (applied: bool)
    ensures
        applied == path_settable(old(root)@, views(path@)),
        applied ==> final(root)@ == set_path(old(root)@, views(path@), new_val@),
        !applied ==> final(root)@ == old(root)@,
{
    if path.len() == 0 {
        return false;
    }
    assert(views(path@).skip(0) =~= views(path@));
    set_path_from(root, path, 0, new_val)
}

/// Whether `node` is an object whose `class_type` is the string `class`.
pub open spec fn is_class(node: Json, class: Seq<char>) -> bool {
    node.get("class_type"@) == Some(Json::String(class))
}

/// The graph with `f` applied to every node, keys and order kept; a graph
/// that is no object as it is.
pub open spec fn map_nodes(graph: Json, f: spec_fn(Json) -> Json) -> Json {
    match graph {
        Json::Object(nodes) => Json::Object(
            Seq::new(nodes.len(), |i: int| (nodes[i].0, f(nodes[i].1))),
        ),
        _ => graph,
    }
}

/// `node` with `prefix` as its `filename_prefix` input, where it is a
/// `SaveImage` node whose `inputs` is an object that has no such input yet;
/// any other node as it is.
pub open spec fn with_default_prefix(node: Json, prefix: Seq<char>) -> Json {
    match node.get("inputs"@) {
        Some(Json::Object(inputs)) if is_class(node, "SaveImage"@) && !has_key(
            inputs,
            "filename_prefix"@,
        ) => node.with_member(
            "inputs"@,
            Json::Object(put(inputs, "filename_prefix"@, Json::String(prefix))),
        ),
        _ => node,
    }
}

/// What `with_default_prefix` does to a node, as a function of the node.
pub open spec fn default_prefix_fn(prefix: Seq<char>) -> spec_fn(Json) -> Json {
    |node: Json| with_default_prefix(node, prefix)
}

/// Whether `node` is an object whose `class_type` is the string `class`.
fn node_is_class(node: &JsonValue, class: &str) -> (r: bool)
    ensures
        r == is_class(node@, class@),
{
    match node.get("class_type") {
        Some(v) => match v.as_str() {
            Some(s) => str_eq(s, class),
            None => false,
        },
        None => false,
    }
}

/// Gives one node its default filename prefix.
fn ensure_node_filename_prefix(node: &mut JsonValue, default_prefix: &str)
    ensures
        final(node)@ == with_default_prefix(old(node)@, default_prefix@),
{
    if node_is_class(node, "SaveImage") {
        match node.get_mut("inputs") {
            Some(member) => {
                match member.as_object_mut() {
                    Some(inputs) => {
                        if !inputs.contains_key("filename_prefix") {
                            inputs.insert("filename_prefix".to_owned(), JsonValue::text(default_prefix));
                        }
                    },
                    None => {},
                }
                proof {
                    lemma_with_member_same(old(node)@, "inputs"@);
                }
            },
            None => {},
        }
    }
}

/// Gives every `SaveImage` node of `graph` whose `inputs` is an object
/// without a `filename_prefix` that input, as the string `default_prefix`.
/// A prefix that is there stays; nodes of other classes, nodes without
/// `class_type` or without an `inputs` object, and a graph that is no object
/// are left as they are.
pub fn ensure_filename_prefix(graph: &mut JsonValue, default_prefix: &str)
    ensures
        final(graph)@ == map_nodes(old(graph)@, default_prefix_fn(default_prefix@)),
{
    match graph.as_object_mut() {
        Some(nodes) => {
            let ghost before = nodes@;
            let n = nodes.len();
            let mut i: usize = 0;
            while i < n
                invariant
                    i <= n,
                    n == before.len(),
                    nodes@.len() == n,
                    forall|k: int|
                        0 <= k < i ==> (#[trigger] nodes@[k]) == (
                            before[k].0,
                            with_default_prefix(before[k].1, default_prefix@),
                        ),
                    forall|k: int| i <= k < n ==> (#[trigger] nodes@[k]) == before[k],
                decreases n - i,
            {
                let node = nodes.value_at_mut(i);
                ensure_node_filename_prefix(node, default_prefix);
                i += 1;
            }
            assert(nodes@ =~= map_nodes(
                Json::Object(before),
                default_prefix_fn(default_prefix@),
            ).entries());
        },
        None => {},
    }
}

/// The text of a string that may be there.
pub open spec fn opt_view(s: Option<String>) -> Option<Seq<char>> {
    match s {
        Some(s) => Some(s@),
        None => None,
    }
}

/// The test for being an entry whose value is a node of class `class`.
pub open spec fn of_class(class: Seq<char>) -> spec_fn((Seq<char>, Json)) -> bool {
    |e: (Seq<char>, Json)| is_class(e.1, class)
}

/// The id of the first node of class `class`, in the order of the graph's entries.
pub open spec fn first_of_class(graph: Json, class: Seq<char>) -> Option<Seq<char>> {
    let nodes = graph.entries();
    let i = first_where(nodes, of_class(class));
    if 0 <= i < nodes.len() {
        Some(nodes[i].0)
    } else {
        None
    }
}

/// The id of the first node of `graph` whose `class_type` is `class_type`, in
/// the order of the graph's entries.
pub fn find_first_node_id_by_class(graph: &JsonValue, class_type: &str) -> (r: Option<String>)
    ensures
        opt_view(r) == first_of_class(graph@, class_type@),
{
    match graph.as_object() {
        Some(nodes) => {
            let mut i: usize = 0;
            while i < nodes.len()
                invariant
                    i <= nodes@.len(),
                    graph@ == Json::Object(nodes@),
                    forall|j: int| 0 <= j < i ==> !is_class((#[trigger] nodes@[j]).1, class_type@),
                decreases nodes@.len() - i,
            {
                if node_is_class(nodes.value_at(i), class_type) {
                    proof {
                        assert forall|j: int| 0 <= j < i implies !of_class(class_type@)(
                            #[trigger] nodes@[j],
                        ) by {
                            assert(!is_class(nodes@[j].1, class_type@));
                        }
                        lemma_first_where_is(nodes@, of_class(class_type@), i as int);
                    }
                    return Some(nodes.key_at(i).clone());
                }
                i += 1;
            }
            proof {
                assert forall|j: int| 0 <= j < i implies !of_class(class_type@)(
                    #[trigger] nodes@[j],
                ) by {
                    assert(!is_class(nodes@[j].1, class_type@));
                }
                lemma_first_where_is(nodes@, of_class(class_type@), i as int);
            }
            None
        },
        None => None,
    }
}

/// Whether a value is an integer: the output slot of a link is one.
pub open spec fn is_slot(value: Json) -> bool {
    value matches Json::Number(JsonNumber::Int(_))
}

/// The node id that a link names. A link is an array of exactly two items:
/// the id of a node, as a string or as an integer of 64 signed bits, which
/// counts as its decimal text, and the integer that is the output slot. Any
/// other value is no link and names no node.
pub open spec fn link_target(source: Json) -> Option<Seq<char>> {
    match source {
        Json::Array(items) if items.len() == 2 && is_slot(items[1]) => match items[0] {
            Json::String(id) => Some(id),
            Json::Number(n) => match int_in_i64(n) {
                Some(id) => Some(decimal_text(id as int)),
                None => None,
            },
            _ => None,
        },
        _ => None,
    }
}

/// The node id that input `input_name` of node `node_id` links to.
pub open spec fn link_source(graph: Json, node_id: Seq<char>, input_name: Seq<char>) -> Option<
    Seq<char>,
> {
    match graph.get(node_id) {
        Some(node) => match node.get("inputs"@) {
            Some(Json::Object(inputs)) => match lookup(inputs, input_name) {
                Some(source) => link_target(source),
                None => None,
            },
            _ => None,
        },
        None => None,
    }
}

/// The id of the node that input `input_name` of node `ksampler_id` is fed
/// by: `None` where the node, its `inputs` object or the input is missing,
/// or the input is no link, that is, no array of a node id and a slot.
pub fn source_node_id_from_ksampler_input(
    graph: &JsonValue,
    ksampler_id: &str,
    input_name: &str,
) -> (r: Option<String>)
    ensures
        opt_view(r) == link_source(graph@, ksampler_id@, input_name@),
{
    let node = match graph.get(ksampler_id) {
        Some(node) => node,
        None => return None,
    };
    let inputs = match node.get("inputs") {
        Some(member) => match member.as_object() {
            Some(inputs) => inputs,
            None => return None,
        },
        None => return None,
    };
    let source = match inputs.get(input_name) {
        Some(source) => source,
        None => return None,
    };
    match source.as_array() {
        Some(items) => {
            if items.len() != 2 {
                return None;
            }
            let slot_is_integer = match &items[1] {
                JsonValue::Number(n) => n.is_integer(),
                _ => false,
            };
            if !slot_is_integer {
                return None;
            }
            let first = &items[0];
            match first {
                JsonValue::String(id) => Some(id.clone()),
                JsonValue::Number(n) => match n.as_i64() {
                    Some(id) => Some(i64_to_string(id)),
                    None => None,
                },
                _ => None,
            }
        },
        None => None,
    }
}

/// Whether node `node_id` of `graph` can take a text: the node is there and
/// its `inputs` is an object.
pub open spec fn text_settable(graph: Json, node_id: Seq<char>) -> bool {
    graph.get(node_id) matches Some(node) && node.get("inputs"@) matches Some(Json::Object(_))
}

/// `graph` with `text` as the `text` input of node `node_id`.
pub open spec fn with_node_text(graph: Json, node_id: Seq<char>, text: Json) -> Json {
    match graph.get(node_id) {
        Some(node) => match node.get("inputs"@) {
            Some(Json::Object(inputs)) => graph.with_member(
                node_id,
                node.with_member("inputs"@, Json::Object(put(inputs, "text"@, text))),
            ),
            _ => graph,
        },
        None => graph,
    }
}

/// Sets the `text` input of node `node_id` to `v`, and says whether it did:
/// it does where the node is there and its `inputs` is an object.
pub fn set_node_text(graph: &mut JsonValue, node_id: &str, v: &JsonValue) -> (applied: bool)
    ensures
        applied == text_settable(old(graph)@, node_id@),
        final(graph)@ == with_node_text(old(graph)@, node_id@, v@),
{
    let mut applied = false;
    match graph.get_mut(node_id) {
        Some(node) => {
            let ghost node_before = node@;
            match node.get_mut("inputs") {
                Some(member) => {
                    match member.as_object_mut() {
                        Some(inputs) => {
                            inputs.insert("text".to_owned(), v.clone());
                            applied = true;
                        },
                        None => {},
                    }
                    proof {
                        lemma_with_member_same(node_before, "inputs"@);
                    }
                },
                None => {},
            }
            proof {
                lemma_with_member_same(old(graph)@, node_id@);
            }
        },
        None => {},
    }
    applied
}

/// The ids of the nodes of class `class`, in the order of the entries.
pub open spec fn ids_of_class(nodes: Seq<(Seq<char>, Json)>, class: Seq<char>) -> Seq<Seq<char>>
    decreases nodes.len(),
{
    if nodes.len() == 0 {
        Seq::empty()
    } else {
        let before = ids_of_class(nodes.drop_last(), class);
        if is_class(nodes.last().1, class) {
            before.push(nodes.last().0)
        } else {
            before
        }
    }
}

/// The ids of the `CLIPTextEncode` nodes of `graph`, in ascending
/// lexicographic order of their text: `"10"` comes before `"2"`.
pub fn collect_clip_textencode_ids(graph: &JsonValue) -> (ids: Vec<String>)
    ensures
        views(ids@) == sort_texts(ids_of_class(graph@.entries(), "CLIPTextEncode"@)),
        ascending(views(ids@)),
        views(ids@).to_multiset() == ids_of_class(
            graph@.entries(),
            "CLIPTextEncode"@,
        ).to_multiset(),
{
    proof {
        lemma_sort_texts(ids_of_class(graph@.entries(), "CLIPTextEncode"@));
    }
    let mut ids: Vec<String> = Vec::new();
    match graph.as_object() {
        Some(nodes) => {
            let mut i: usize = 0;
            assert(nodes@.take(0) =~= Seq::empty());
            assert(views(ids@) =~= Seq::<Seq<char>>::empty());
            while i < nodes.len()
                invariant
                    i <= nodes@.len(),
                    views(ids@) == ids_of_class(nodes@.take(i as int), "CLIPTextEncode"@),
                decreases nodes@.len() - i,
            {
                let ghost before = views(ids@);
                assert(nodes@.take(i + 1).drop_last() =~= nodes@.take(i as int));
                if node_is_class(nodes.value_at(i), "CLIPTextEncode") {
                    ids.push(nodes.key_at(i).clone());
                    assert(views(ids@) =~= before.push(nodes@[i as int].0));
                }
                i += 1;
            }
            assert(nodes@.take(i as int) =~= nodes@);
        },
        None => {
            assert(views(ids@) =~= Seq::<Seq<char>>::empty());
        },
    }
    sort_strings(ids)
}

/// What a value that may be there stands for.
pub open spec fn opt_json(v: Option<&JsonValue>) -> Option<Json> {
    match v {
        Some(v) => Some(v@),
        None => None,
    }
}

/// One side of the routing through the sampler's links: the graph with
/// `text` on the node that input `input` of the sampler links to, and whether
/// that node took it. Without a sampler, a text or a link the graph stays.
pub open spec fn route_by_link(
    graph: Json,
    sampler: Option<Seq<char>>,
    input: Seq<char>,
    text: Option<Json>,
) -> (Json, bool) {
    match (sampler, text) {
        (Some(sampler), Some(text)) => match link_source(graph, sampler, input) {
            Some(target) => (with_node_text(graph, target, text), text_settable(graph, target)),
            None => (graph, false),
        },
        _ => (graph, false),
    }
}

/// One side of the fallback: the graph with `text` on the encoder of rank
/// `rank` among `ids`, where a text is pending and there is such an encoder.
pub open spec fn route_by_rank(
    graph: Json,
    ids: Seq<Seq<char>>,
    rank: int,
    text: Option<Json>,
    applied: bool,
) -> Json {
    match text {
        Some(text) if !applied && rank < ids.len() => with_node_text(graph, ids[rank], text),
        _ => graph,
    }
}

/// The graph with the positive and the negative text routed.
///
/// The sampler is the first `KSampler` node. Each text that is given goes
/// to the node that the sampler's `positive` (or `negative`) input links to,
/// if that node can take it. A text that found no such node goes to a
/// `CLIPTextEncode` node instead: the positive one to the first of them in
/// ascending order of their ids, the negative one to the second; where there
/// is no such node, or it cannot take a text, that text is dropped.
pub open spec fn route_text(graph: Json, positive: Option<Json>, negative: Option<Json>) -> Json {
    let sampler = first_of_class(graph, "KSampler"@);
    let (linked_pos, applied_pos) = route_by_link(graph, sampler, "positive"@, positive);
    let (linked, applied_neg) = route_by_link(linked_pos, sampler, "negative"@, negative);
    let ids = sort_texts(ids_of_class(linked.entries(), "CLIPTextEncode"@));
    let ranked_pos = route_by_rank(linked, ids, 0, positive, applied_pos);
    route_by_rank(ranked_pos, ids, 1, negative, applied_neg)
}

/// Routes the positive and the negative text to the text encoders of `graph`:
/// through the links of the first `KSampler` node where they lead to a node
/// that can take a text, else to the first and the second `CLIPTextEncode`
/// node in ascending order of their ids. A text without a target is dropped.
pub fn apply_text_pos_neg(graph: &mut JsonValue, text_pos: Option<&JsonValue>, text_neg: Option<&JsonValue>)
    ensures
        final(graph)@ == route_text(old(graph)@, opt_json(text_pos), opt_json(text_neg)),
{
    let ksampler_id = find_first_node_id_by_class(graph, "KSampler");
    let mut applied_pos = false;
    let mut applied_neg = false;
    match &ksampler_id {
        Some(ks_id) => {
            match text_pos {
                Some(v) => {
                    match source_node_id_from_ksampler_input(graph, ks_id.as_str(), "positive") {
                        Some(src) => {
                            applied_pos = set_node_text(graph, src.as_str(), v);
                        },
                        None => {},
                    }
                },
                None => {},
            }
            match text_neg {
                Some(v) => {
                    match source_node_id_from_ksampler_input(graph, ks_id.as_str(), "negative") {
                        Some(src) => {
                            applied_neg = set_node_text(graph, src.as_str(), v);
                        },
                        None => {},
                    }
                },
                None => {},
            }
        },
        None => {},
    }
    if (!applied_pos && text_pos.is_some()) || (!applied_neg && text_neg.is_some()) {
        let clip_nodes = collect_clip_textencode_ids(graph);
        match text_pos {
            Some(v) => {
                if !applied_pos && clip_nodes.len() > 0 {
                    let _ = set_node_text(graph, clip_nodes[0].as_str(), v);
                }
            },
            None => {},
        }
        match text_neg {
            Some(v) => {
                if !applied_neg && clip_nodes.len() > 1 {
                    let _ = set_node_text(graph, clip_nodes[1].as_str(), v);
                }
            },
            None => {},
        }
    }
}

/// Whether `key` is one of the named parameters that are broadcast to the
/// inputs of the nodes.
pub open spec fn is_known_param(key: Seq<char>) -> bool {
    ||| key == "seed"@
    ||| key == "steps"@
    ||| key == "cfg"@
    ||| key == "sampler_name"@
    ||| key == "scheduler"@
    ||| key == "denoise"@
    ||| key == "width"@
    ||| key == "height"@
    ||| key == "batch_size"@
    ||| key == "ckpt_name"@
    ||| key == "text"@
}

/// Whether `key` is one of the named parameters that are broadcast.
pub fn is_known_param_key(key: &str) -> (r: bool)
    ensures
        r == is_known_param(key@),
{
    str_eq(key, "seed") || str_eq(key, "steps") || str_eq(key, "cfg") || str_eq(
        key,
        "sampler_name",
    ) || str_eq(key, "scheduler") || str_eq(key, "denoise") || str_eq(key, "width") || str_eq(
        key,
        "height",
    ) || str_eq(key, "batch_size") || str_eq(key, "ckpt_name") || str_eq(key, "text")
}

/// The inputs with every one that is a named parameter given in `params`
/// overwritten by the value given there. No input is added and none moves.
pub open spec fn broadcast_inputs(
    inputs: Seq<(Seq<char>, Json)>,
    params: Seq<(Seq<char>, Json)>,
) -> Seq<(Seq<char>, Json)> {
    Seq::new(
        inputs.len(),
        |i: int|
            {
                let key = inputs[i].0;
                if is_known_param(key) && has_key(params, key) {
                    (key, lookup(params, key).unwrap())
                } else {
                    inputs[i]
                }
            },
    )
}

/// `node` with the named parameters broadcast to its inputs, where its
/// `inputs` is an object; any other node as it is.
pub open spec fn broadcast_node(node: Json, params: Seq<(Seq<char>, Json)>) -> Json {
    match node.get("inputs"@) {
        Some(Json::Object(inputs)) => node.with_member(
            "inputs"@,
            Json::Object(broadcast_inputs(inputs, params)),
        ),
        _ => node,
    }
}

/// What `broadcast_node` does to a node, as a function of the node.
pub open spec fn broadcast_fn(params: Seq<(Seq<char>, Json)>) -> spec_fn(Json) -> Json {
    |node: Json| broadcast_node(node, params)
}

/// The graph after the parameters were applied: first the texts under
/// `text_positive` and `text_negative` are routed, then the named parameters
/// are broadcast to the inputs of every node. Parameters that are no object
/// change nothing.
pub open spec fn apply_params(graph: Json, params: Json) -> Json {
    match params {
        Json::Object(entries) => {
            let positive = lookup(entries, "text_positive"@);
            let negative = lookup(entries, "text_negative"@);
            let routed = if positive.is_some() || negative.is_some() {
                route_text(graph, positive, negative)
            } else {
                graph
            };
            map_nodes(routed, broadcast_fn(entries))
        },
        _ => graph,
    }
}

/// Broadcasts the named parameters to the inputs of one node.
fn broadcast_to_node(node: &mut JsonValue, params: &Object)
    ensures
        final(node)@ == broadcast_node(old(node)@, params@),
{
    match node.get_mut("inputs") {
        Some(member) => {
            match member.as_object_mut() {
                Some(inputs) => {
                    let ghost before = inputs@;
                    let n = inputs.len();
                    let mut i: usize = 0;
                    while i < n
                        invariant
                            i <= n,
                            n == before.len(),
                            inputs@.len() == n,
                            forall|k: int|
                                0 <= k < i ==> (#[trigger] inputs@[k]) == broadcast_inputs(
                                    before,
                                    params@,
                                )[k],
                            forall|k: int| i <= k < n ==> (#[trigger] inputs@[k]) == before[k],
                        decreases n - i,
                    {
                        if is_known_param_key(inputs.key_at(i).as_str()) {
                            match params.get(inputs.key_at(i).as_str()) {
                                Some(v) => {
                                    let fresh = v.clone();
                                    let slot = inputs.value_at_mut(i);
                                    *slot = fresh;
                                },
                                None => {},
                            }
                        }
                        i += 1;
                    }
                    assert(inputs@ =~= broadcast_inputs(before, params@));
                },
                None => {},
            }
            proof {
                lemma_with_member_same(old(node)@, "inputs"@);
            }
        },
        None => {},
    }
}

/// Applies a parameter object to the graph.
///
/// The texts under `text_positive` and `text_negative` are routed as
/// [`apply_text_pos_neg`] does. Then each of the named parameters `seed`,
/// `steps`, `cfg`, `sampler_name`, `scheduler`, `denoise`, `width`, `height`,
/// `batch_size`, `ckpt_name` and `text` that `params` gives overwrites the
/// input of that name in every node that has one, whatever it held. A node
/// without such an input does not get one, and any other key of `params` is
/// passed over. Parameters that are no object change nothing.
pub fn apply_params_map(graph: &mut JsonValue, params: &JsonValue)
    ensures
        final(graph)@ == apply_params(old(graph)@, params@),
{
    let obj = match params.as_object() {
        Some(obj) => obj,
        None => return ,
    };
    let text_pos = obj.get("text_positive");
    let text_neg = obj.get("text_negative");
    if text_pos.is_some() || text_neg.is_some() {
        apply_text_pos_neg(graph, text_pos, text_neg);
    }
    let ghost routed = graph@;
    match graph.as_object_mut() {
        Some(nodes) => {
            let ghost before = nodes@;
            let n = nodes.len();
            let mut i: usize = 0;
            while i < n
                invariant
                    i <= n,
                    n == before.len(),
                    nodes@.len() == n,
                    forall|k: int|
                        0 <= k < i ==> (#[trigger] nodes@[k]) == (
                            before[k].0,
                            broadcast_node(before[k].1, obj@),
                        ),
                    forall|k: int| i <= k < n ==> (#[trigger] nodes@[k]) == before[k],
                decreases n - i,
            {
                let node = nodes.value_at_mut(i);
                broadcast_to_node(node, obj);
                i += 1;
            }
            assert(nodes@ =~= map_nodes(Json::Object(before), broadcast_fn(obj@)).entries());
        },
        None => {},
    }
}

/// The names of the inputs of a node, where its `inputs` is an object.
pub open spec fn input_keys(node: Json) -> Option<Seq<Seq<char>>> {
    match node.get("inputs"@) {
        Some(Json::Object(inputs)) => Some(keys(inputs)),
        _ => None,
    }
}

/// The value of input `name` of a node.
pub open spec fn input_of(node: Json, name: Seq<char>) -> Option<Json> {
    match node.get("inputs"@) {
        Some(Json::Object(inputs)) => lookup(inputs, name),
        _ => None,
    }
}

/// What the caller's reader of binary64 numbers made of a text. This crate
/// holds no floating-point number; it takes the outcome of reading one.
#[derive(Debug, PartialEq, Eq)]
pub enum FloatReading {
    /// The text is no number in the reader's syntax.
    Unreadable,
    /// The text reads as an infinity or as a NaN.
    NonFinite,
    /// The text reads as a finite number, which has this JSON text.
    Finite(String),
}

impl View for FloatReading {
    type V = Option<Json>;

    /// The value that the reading gives: none for a text that is no number,
    /// null for one that is not finite.
    open spec fn view(&self) -> Option<Json> {
        match self {
            FloatReading::Unreadable => None,
            FloatReading::NonFinite => Some(Json::Null),
            FloatReading::Finite(text) => Some(Json::Number(JsonNumber::Float(text@))),
        }
    }
}

/// The value that an override text stands for. The first of these decides:
/// the text is a JSON document, and stands for its value; it is `null`,
/// `true` or `false` in any mix of upper and lower case; it is a decimal
/// integer of 64 signed bits; it reads as a binary64 number; else it stands
/// for itself, as a string.
pub open spec fn coerce(
    raw: Seq<char>,
    document: Result<Json, Seq<char>>,
    float: Option<Json>,
) -> Json {
    match document {
        Ok(value) => value,
        Err(_) => if eq_ignoring_ascii_case(raw, "null"@) {
            Json::Null
        } else if eq_ignoring_ascii_case(raw, "true"@) {
            Json::Bool(true)
        } else if eq_ignoring_ascii_case(raw, "false"@) {
            Json::Bool(false)
        } else {
            match decimal_i64(raw) {
                Some(n) => Json::Number(JsonNumber::Int(n as int)),
                None => match float {
                    Some(value) => value,
                    None => Json::String(raw),
                },
            }
        },
    }
}

/// The value that `src` stands for, given what reading it as a JSON document
/// and as a binary64 number came to.
pub fn parse_value_with(src: &str, document: Result<JsonValue, String>, float: &FloatReading) -> (v:
    JsonValue)
    ensures
        v@ == coerce(src@, outcome_view(document), float@),
        (document matches Ok(d) ==> d@.well_formed()) ==> v@.well_formed(),
{
    match document {
        Ok(value) => value,
        Err(_) => {
            if str_eq_ignore_ascii_case(src, "null") {
                JsonValue::Null
            } else if str_eq_ignore_ascii_case(src, "true") {
                JsonValue::Bool(true)
            } else if str_eq_ignore_ascii_case(src, "false") {
                JsonValue::Bool(false)
            } else {
                match parse_i64(src) {
                    Some(n) => JsonValue::integer(n),
                    None => match float {
                        FloatReading::Unreadable => JsonValue::text(src),
                        FloatReading::NonFinite => JsonValue::Null,
                        FloatReading::Finite(text) => JsonValue::Number(
                            Number::from_float_text(text.clone()),
                        ),
                    },
                }
            }
        },
    }
}

/// The value that the override text `src` stands for; `float` is what the
/// caller's reader of binary64 numbers made of `src`. See [`coerce`] for the
/// order in which the readings are tried.
pub fn parse_value(src: &str, float: &FloatReading) -> (v: JsonValue)
    ensures
        v@ == coerce(src@, json_document(src@), float@),
        v@.well_formed(),
{
    parse_value_with(src, parse_document(src), float)
}

/// Whether an override item has the `=` that parts its path from its value.
pub open spec fn has_separator(item: Seq<char>) -> bool {
    0 <= index_of_char(item, '=') < item.len()
}

/// What stands before the first `=` of an item: its path, dots and all.
pub open spec fn key_text(item: Seq<char>) -> Seq<char> {
    item.take(index_of_char(item, '='))
}

/// What follows the first `=` of an item; nothing where it has none.
pub open spec fn value_text(item: Seq<char>) -> Seq<char> {
    if has_separator(item) {
        item.skip(index_of_char(item, '=') + 1)
    } else {
        Seq::empty()
    }
}

/// The message for an item without `=`.
pub open spec fn malformed_message(item: Seq<char>) -> Seq<char> {
    "Invalid --set '"@ + item + "', expected KEY=VALUE"@
}

/// The test for being an item without `=`.
pub open spec fn malformed() -> spec_fn(Seq<char>) -> bool {
    |item: Seq<char>| !has_separator(item)
}

/// The reading that belongs to item `i`: the one at that place, and that of
/// a text that is no number where the readings end before it.
pub open spec fn reading_at(floats: Seq<FloatReading>, i: int) -> Option<Json> {
    if 0 <= i < floats.len() {
        floats[i]@
    } else {
        None
    }
}

/// The path and the value that an item with `=` stands for: the pieces
/// between the dots of what stands before the first `=`, and what the text
/// after it is coerced to.
pub open spec fn set_pair(item: Seq<char>, float: Option<Json>) -> (Seq<Seq<char>>, Json) {
    (
        split_on(key_text(item), '.'),
        coerce(value_text(item), json_document(value_text(item)), float),
    )
}

/// What parsed pairs stand for.
pub open spec fn pairs_model(pairs: Seq<(Vec<String>, JsonValue)>) -> Seq<(Seq<Seq<char>>, Json)> {
    Seq::new(pairs.len(), |i: int| (views(pairs[i].0@), pairs[i].1@))
}

/// The texts that the caller's reader of binary64 numbers is to read before
/// [`parse_set_pairs`] is called: for each item what follows its first `=`.
pub fn set_value_texts(items: &[String]) -> (texts: Vec<String>)
    ensures
        texts@.len() == items@.len(),
        forall|i: int| 0 <= i < items@.len() ==> (#[trigger] texts@[i])@ == value_text(items@[i]@),
{
    let mut texts: Vec<String> = Vec::new();
    let mut i: usize = 0;
    while i < items.len()
        invariant
            i <= items@.len(),
            texts@.len() == i,
            forall|k: int| 0 <= k < i ==> (#[trigger] texts@[k])@ == value_text(items@[k]@),
        decreases items@.len() - i,
    {
        match split_once(items[i].as_str(), '=') {
            Some((_, tail)) => texts.push(tail),
            None => texts.push(String::new()),
        }
        i += 1;
    }
    texts
}

/// Parses override items of the form `a.b.c=value` into paths and values.
///
/// `floats[i]` is what the caller's reader of binary64 numbers made of the
/// `i`-th of [`set_value_texts`]; where `floats` is the shorter, the items
/// beyond it count as texts that are no number. If any item has no `=`, the
/// whole batch fails with the message that names the first such item.
pub fn parse_set_pairs(items: &[String], floats: &[FloatReading]) -> (r: Result<
    Vec<(Vec<String>, JsonValue)>,
    String,
>)
    ensures
        match r {
            Ok(pairs) => {
                &&& first_where(views(items@), malformed()) == items@.len()
                &&& pairs@.len() == items@.len()
                &&& forall|i: int|
                    0 <= i < items@.len() ==> (#[trigger] pairs_model(pairs@)[i]) == set_pair(
                        items@[i]@,
                        reading_at(floats@, i),
                    )
                &&& forall|i: int|
                    0 <= i < items@.len() ==> (#[trigger] pairs_model(pairs@)[i]).1.well_formed()
            },
            Err(message) => {
                let bad = first_where(views(items@), malformed());
                &&& 0 <= bad < items@.len()
                &&& message@ == malformed_message(items@[bad]@)
            },
        },
{
    let mut out: Vec<(Vec<String>, JsonValue)> = Vec::new();
    let unreadable = FloatReading::Unreadable;
    let mut i: usize = 0;
    while i < items.len()
        invariant
            i <= items@.len(),
            out@.len() == i,
            unreadable@ == None::<Json>,
            forall|k: int| 0 <= k < i ==> has_separator(#[trigger] items@[k]@),
            forall|k: int|
                0 <= k < i ==> (#[trigger] pairs_model(out@)[k]) == set_pair(
                    items@[k]@,
                    reading_at(floats@, k),
                ),
            forall|k: int| 0 <= k < i ==> (#[trigger] pairs_model(out@)[k]).1.well_formed(),
        decreases items@.len() - i,
    {
        let item = items[i].as_str();
        match split_once(item, '=') {
            Some((key, val)) => {
                let float = if i < floats.len() {
                    &floats[i]
                } else {
                    &unreadable
                };
                let key_path = split(key.as_str(), '.');
                let parsed = parse_value(val.as_str(), float);
                let ghost before = pairs_model(out@);
                out.push((key_path, parsed));
                proof {
                    assert forall|k: int| 0 <= k < i + 1 implies (#[trigger] pairs_model(out@)[k])
                        == set_pair(items@[k]@, reading_at(floats@, k)) && pairs_model(
                        out@,
                    )[k].1.well_formed() by {
                        if k < i {
                            assert(pairs_model(out@)[k] == before[k]);
                        }
                    }
                }
            },
            None => {
                proof {
                    assert forall|k: int| 0 <= k < i implies !malformed()(
                        #[trigger] views(items@)[k],
                    ) by {
                        assert(has_separator(items@[k]@));
                    }
                    lemma_first_where_is(views(items@), malformed(), i as int);
                }
                let message = append_text(
                    append_text("Invalid --set '", item).as_str(),
                    "', expected KEY=VALUE",
                );
                return Err(message);
            },
        }
        i += 1;
    }
    proof {
        assert forall|k: int| 0 <= k < i implies !malformed()(#[trigger] views(items@)[k]) by {
            assert(has_separator(items@[k]@));
        }
        lemma_first_where_is(views(items@), malformed(), i as int);
    }
    Ok(out)
}

} // verus!
