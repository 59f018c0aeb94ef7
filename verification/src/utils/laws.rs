//! What holds of the override operations on every graph: that a value set
//! at a path is read back there, that the default prefix is given once, which
//! inputs the parameters can add, and that the keys of every object stay
//! distinct.
use crate::json::{
    has_key, keys, lemma_member_well_formed, lemma_position, lemma_position_is, lemma_put,
    lemma_put_well_formed, lemma_with_member, lemma_with_member_same,
    lemma_with_member_well_formed, lookup, position, put, put_all, Json,
};
use crate::text::sort_texts;
use crate::utils::prompt_build::{
    apply_pairs, apply_set, apply_sets, merged_params, take_key, with_defaults, with_params,
};
use crate::utils::prompt_ops::{
    apply_params, broadcast_fn, broadcast_inputs, broadcast_node, default_prefix_fn,
    first_of_class, get_path, ids_of_class, input_keys, input_of, is_known_param, link_source,
    map_nodes, path_settable, route_by_link, route_by_rank, route_text, set_path,
    with_default_prefix, with_node_text,
};
use vstd::prelude::*;

verus! {

/// Round trip: where a path can be set, the value that was set at it is what
/// the path leads to afterwards.
pub proof fn lemma_set_path_then_get(root: Json, path: Seq<Seq<char>>, value: Json)
    requires
        path_settable(root, path),
    ensures
        get_path(set_path(root, path, value), path) == Some(value),
    decreases path.len(),
{
    let after = set_path(root, path, value);
    let rest = path.drop_first();
    if path.len() == 1 {
        lemma_put(root.entries(), path[0], value, path[0]);
        assert(after.get(path[0]) == Some(value));
        assert(get_path(value, rest) == Some(value));
    } else {
        let child = root.get(path[0]).unwrap();
        lemma_set_path_then_get(child, rest, value);
        lemma_with_member(root, path[0], set_path(child, rest, value), path[0]);
        assert(after.get(path[0]) == Some(set_path(child, rest, value)));
    }
}

/// Setting a value at a path makes no object of a root that is none, and
/// leaves such a root as it is.
pub proof fn lemma_set_path_keeps_kind(root: Json, path: Seq<Seq<char>>, value: Json)
    ensures
        (set_path(root, path, value) is Object) == (root is Object),
        !(root is Object) ==> set_path(root, path, value) == root,
{
    lemma_position(root.entries(), if path.len() > 0 {
        path[0]
    } else {
        Seq::empty()
    });
}

/// Where a path cannot be set, setting it changes nothing.
pub proof fn lemma_set_path_unsettable(root: Json, path: Seq<Seq<char>>, value: Json)
    requires
        !path_settable(root, path),
    ensures
        set_path(root, path, value) == root,
    decreases path.len(),
{
    if path.len() > 1 {
        if let Some(child) = root.get(path[0]) {
            lemma_set_path_unsettable(child, path.drop_first(), value);
            lemma_with_member_same(root, path[0]);
        }
    }
}

/// Setting a well-formed value at a path keeps a well-formed tree well formed.
pub proof fn lemma_set_path_well_formed(root: Json, path: Seq<Seq<char>>, value: Json)
    requires
        root.well_formed(),
        value.well_formed(),
    ensures
        set_path(root, path, value).well_formed(),
    decreases path.len(),
{
    if path.len() == 1 {
        if let Json::Object(entries) = root {
            lemma_put_well_formed(entries, path[0], value);
        }
    } else if path.len() > 1 {
        if let Some(child) = root.get(path[0]) {
            let entries = root.entries();
            lemma_position(entries, path[0]);
            let p = position(entries, path[0]);
            assert(entries[p].1.well_formed());
            lemma_set_path_well_formed(child, path.drop_first(), value);
            lemma_with_member_well_formed(root, path[0], set_path(child, path.drop_first(), value));
        }
    }
}

/// Setting a value at a path takes no member from the root.
pub proof fn lemma_set_path_keeps_members(
    root: Json,
    path: Seq<Seq<char>>,
    value: Json,
    key: Seq<char>,
)
    requires
        root.get(key).is_some(),
    ensures
        set_path(root, path, value).get(key).is_some(),
{
    if path.len() == 1 {
        lemma_put(root.entries(), path[0], value, key);
    } else if path.len() > 1 {
        if let Some(child) = root.get(path[0]) {
            let changed = set_path(child, path.drop_first(), value);
            lemma_with_member(root, path[0], changed, key);
        }
    }
}

/// Idempotence: giving the default prefix a second time changes nothing,
/// whatever prefix the second time brings.
pub proof fn lemma_default_prefix_idempotent(graph: Json, prefix: Seq<char>, again: Seq<char>)
    ensures
        map_nodes(map_nodes(graph, default_prefix_fn(prefix)), default_prefix_fn(again))
            == map_nodes(graph, default_prefix_fn(prefix)),
{
    if let Json::Object(nodes) = graph {
        let once = map_nodes(graph, default_prefix_fn(prefix)).entries();
        let twice = map_nodes(Json::Object(once), default_prefix_fn(again)).entries();
        assert forall|i: int| 0 <= i < nodes.len() implies twice[i] == once[i] by {
            lemma_default_prefix_node_idempotent(nodes[i].1, prefix, again);
        }
        assert(twice =~= once);
    }
}

/// A node that was given its default prefix is left alone by a second pass.
pub proof fn lemma_default_prefix_node_idempotent(node: Json, prefix: Seq<char>, again: Seq<char>)
    ensures
        with_default_prefix(with_default_prefix(node, prefix), again) == with_default_prefix(
            node,
            prefix,
        ),
{
    let once = with_default_prefix(node, prefix);
    if once != node {
        let inputs = node.get("inputs"@).unwrap()->Object_0;
        let filled = put(inputs, "filename_prefix"@, Json::String(prefix));
        lemma_with_member(node, "inputs"@, Json::Object(filled), "inputs"@);
        lemma_put(inputs, "filename_prefix"@, Json::String(prefix), "filename_prefix"@);
        assert(once.get("inputs"@) == Some(Json::Object(filled)));
        assert(has_key(filled, "filename_prefix"@));
    }
}

/// Broadcasting to inputs keeps their names and their order; an input that
/// is a named parameter given in `params` holds the value given there, and
/// every other input holds what it held.
pub proof fn lemma_broadcast_inputs(
    inputs: Seq<(Seq<char>, Json)>,
    params: Seq<(Seq<char>, Json)>,
    name: Seq<char>,
)
    ensures
        keys(broadcast_inputs(inputs, params)) == keys(inputs),
        has_key(broadcast_inputs(inputs, params), name) == has_key(inputs, name),
        lookup(broadcast_inputs(inputs, params), name) == if has_key(inputs, name)
            && is_known_param(name) && has_key(params, name) {
            lookup(params, name)
        } else {
            lookup(inputs, name)
        },
{
    let after = broadcast_inputs(inputs, params);
    assert(keys(after) =~= keys(inputs));
    lemma_position(inputs, name);
    lemma_position_is(after, name, position(inputs, name));
}

/// Broadcast scope: where the parameters bring no text to route, applying
/// them keeps the graph's node ids, and in every node the members and the
/// names of the inputs, in their order. An input holds afterwards the
/// parameter of its name, if that is a named parameter that was given, and
/// else what it held; no node gets an input that it did not have.
pub proof fn lemma_params_without_text_keep_inputs(
    graph: Json,
    params: Json,
    i: int,
    name: Seq<char>,
)
    requires
        params.get("text_positive"@).is_none(),
        params.get("text_negative"@).is_none(),
        0 <= i < graph.entries().len(),
    ensures
        apply_params(graph, params) is Object == graph is Object,
        keys(apply_params(graph, params).entries()) == keys(graph.entries()),
        keys(apply_params(graph, params).entries()[i].1.entries()) == keys(
            graph.entries()[i].1.entries(),
        ),
        input_keys(apply_params(graph, params).entries()[i].1) == input_keys(graph.entries()[i].1),
        input_of(apply_params(graph, params).entries()[i].1, name) == if input_of(
            graph.entries()[i].1,
            name,
        ).is_some() && is_known_param(name) && params.get(name).is_some() {
            params.get(name)
        } else {
            input_of(graph.entries()[i].1, name)
        },
{
    let after = apply_params(graph, params);
    let node = graph.entries()[i].1;
    match params {
        Json::Object(entries) => {
            assert(after.entries()[i].1 == broadcast_node(node, entries));
            assert(keys(after.entries()) =~= keys(graph.entries()));
            match node.get("inputs"@) {
                Some(Json::Object(inputs)) => {
                    let filled = Json::Object(broadcast_inputs(inputs, entries));
                    lemma_with_member(node, "inputs"@, filled, "inputs"@);
                    lemma_broadcast_inputs(inputs, entries, name);
                },
                _ => {},
            }
        },
        _ => {
            lemma_position(Seq::empty(), name);
        },
    }
}

/// Whether `after` has the node ids of `before`, and in each node an input
/// of every name but `text` exactly where `before` has one.
pub open spec fn adds_no_input_but_text(before: Json, after: Json) -> bool {
    &&& (before is Object) == (after is Object)
    &&& !(before is Object) ==> after == before
    &&& keys(after.entries()) == keys(before.entries())
    &&& forall|i: int, name: Seq<char>|
        #![trigger input_of(after.entries()[i].1, name)]
        0 <= i < before.entries().len() && name != "text"@ ==> input_of(
            after.entries()[i].1,
            name,
        ).is_some() == input_of(before.entries()[i].1, name).is_some()
}

/// What adds no input but `text` twice in a row adds no input but `text`.
pub proof fn lemma_adds_no_input_transitive(a: Json, b: Json, c: Json)
    requires
        adds_no_input_but_text(a, b),
        adds_no_input_but_text(b, c),
    ensures
        adds_no_input_but_text(a, c),
{
    assert(keys(a.entries()).len() == a.entries().len());
    assert(keys(b.entries()).len() == b.entries().len());
    assert forall|i: int, name: Seq<char>|
        #![trigger input_of(c.entries()[i].1, name)]
        0 <= i < a.entries().len() && name != "text"@ implies input_of(
        c.entries()[i].1,
        name,
    ).is_some() == input_of(a.entries()[i].1, name).is_some() by {
        assert(input_of(c.entries()[i].1, name).is_some() == input_of(
            b.entries()[i].1,
            name,
        ).is_some());
    }
}

/// Giving a node a text adds no input but `text`.
pub proof fn lemma_node_text_adds_no_input(graph: Json, node_id: Seq<char>, text: Json)
    ensures
        adds_no_input_but_text(graph, with_node_text(graph, node_id, text)),
{
    let after = with_node_text(graph, node_id, text);
    if after != graph {
        let entries = graph.entries();
        let node = graph.get(node_id).unwrap();
        let inputs = node.get("inputs"@).unwrap()->Object_0;
        let filled = put(inputs, "text"@, text);
        let changed = node.with_member("inputs"@, Json::Object(filled));
        let p = position(entries, node_id);
        lemma_position(entries, node_id);
        lemma_with_member(node, "inputs"@, Json::Object(filled), "inputs"@);
        assert(keys(after.entries()) =~= keys(entries));
        assert forall|i: int, name: Seq<char>|
            #![trigger input_of(after.entries()[i].1, name)]
            0 <= i < entries.len() && name != "text"@ implies input_of(
            after.entries()[i].1,
            name,
        ).is_some() == input_of(entries[i].1, name).is_some() by {
            if i == p {
                lemma_put(inputs, "text"@, text, name);
            }
        }
    }
}

/// Routing the texts adds no input but `text`.
pub proof fn lemma_route_text_adds_no_input(
    graph: Json,
    positive: Option<Json>,
    negative: Option<Json>,
)
    ensures
        adds_no_input_but_text(graph, route_text(graph, positive, negative)),
{
    let sampler = first_of_class(graph, "KSampler"@);
    let (g1, applied_pos) = route_by_link(graph, sampler, "positive"@, positive);
    let (g2, applied_neg) = route_by_link(g1, sampler, "negative"@, negative);
    let ids = sort_texts(ids_of_class(g2.entries(), "CLIPTextEncode"@));
    let g3 = route_by_rank(g2, ids, 0, positive, applied_pos);
    let g4 = route_by_rank(g3, ids, 1, negative, applied_neg);
    lemma_link_adds_no_input(graph, sampler, "positive"@, positive);
    lemma_link_adds_no_input(g1, sampler, "negative"@, negative);
    lemma_rank_adds_no_input(g2, ids, 0, positive, applied_pos);
    lemma_rank_adds_no_input(g3, ids, 1, negative, applied_neg);
    lemma_adds_no_input_transitive(graph, g1, g2);
    lemma_adds_no_input_transitive(graph, g2, g3);
    lemma_adds_no_input_transitive(graph, g3, g4);
}

/// One side of the routing by link adds no input but `text`.
pub proof fn lemma_link_adds_no_input(
    graph: Json,
    sampler: Option<Seq<char>>,
    input: Seq<char>,
    text: Option<Json>,
)
    ensures
        adds_no_input_but_text(graph, route_by_link(graph, sampler, input, text).0),
{
    if let (Some(ks), Some(v)) = (sampler, text) {
        if let Some(target) = link_source(graph, ks, input) {
            lemma_node_text_adds_no_input(graph, target, v);
        }
    }
}

/// One side of the routing by rank adds no input but `text`.
pub proof fn lemma_rank_adds_no_input(
    graph: Json,
    ids: Seq<Seq<char>>,
    rank: int,
    text: Option<Json>,
    applied: bool,
)
    ensures
        adds_no_input_but_text(graph, route_by_rank(graph, ids, rank, text, applied)),
{
    if let Some(v) = text {
        if !applied && rank < ids.len() {
            lemma_node_text_adds_no_input(graph, ids[rank], v);
        }
    }
}

/// Broadcasting the named parameters adds no input at all.
pub proof fn lemma_broadcast_adds_no_input(graph: Json, params: Seq<(Seq<char>, Json)>)
    ensures
        adds_no_input_but_text(graph, map_nodes(graph, broadcast_fn(params))),
{
    let after = map_nodes(graph, broadcast_fn(params));
    let entries = graph.entries();
    assert(keys(after.entries()) =~= keys(entries));
    assert forall|i: int, name: Seq<char>|
        #![trigger input_of(after.entries()[i].1, name)]
        0 <= i < entries.len() && name != "text"@ implies input_of(
        after.entries()[i].1,
        name,
    ).is_some() == input_of(entries[i].1, name).is_some() by {
        let node = entries[i].1;
        assert(after.entries()[i].1 == broadcast_node(node, params));
        match node.get("inputs"@) {
            Some(Json::Object(inputs)) => {
                let filled = Json::Object(broadcast_inputs(inputs, params));
                lemma_with_member(node, "inputs"@, filled, "inputs"@);
                lemma_broadcast_inputs(inputs, params, name);
            },
            _ => {},
        }
    }
}

/// Broadcast scope, for all parameters: applying parameters keeps the node
/// ids of the graph and gives no node an input that it did not have, but for
/// `text`, which routing a positive or negative text adds to its target.
pub proof fn lemma_params_add_no_input_but_text(graph: Json, params: Json)
    ensures
        adds_no_input_but_text(graph, apply_params(graph, params)),
{
    if let Json::Object(entries) = params {
        let positive = lookup(entries, "text_positive"@);
        let negative = lookup(entries, "text_negative"@);
        let routed = if positive.is_some() || negative.is_some() {
            route_text(graph, positive, negative)
        } else {
            graph
        };
        if positive.is_some() || negative.is_some() {
            lemma_route_text_adds_no_input(graph, positive, negative);
        }
        lemma_broadcast_adds_no_input(routed, entries);
        lemma_adds_no_input_transitive(graph, routed, apply_params(graph, params));
    }
}

/// A function that keeps nodes well formed keeps a graph well formed when
/// it is applied to every node.
pub proof fn lemma_map_nodes_well_formed(graph: Json, f: spec_fn(Json) -> Json)
    requires
        graph.well_formed(),
        forall|node: Json| node.well_formed() ==> (#[trigger] f(node)).well_formed(),
    ensures
        map_nodes(graph, f).well_formed(),
{
    if let Json::Object(nodes) = graph {
        let after = map_nodes(graph, f).entries();
        assert forall|i: int| 0 <= i < after.len() implies (#[trigger] after[i]).1.well_formed() by {
            assert(nodes[i].1.well_formed());
        }
        assert forall|a: int, b: int| 0 <= a < b < after.len() implies (#[trigger] after[a]).0 != (
        #[trigger] after[b]).0 by {
            assert(after[a].0 == nodes[a].0 && after[b].0 == nodes[b].0);
        }
    }
}

/// A node that is given its default prefix stays well formed.
pub proof fn lemma_default_prefix_node_well_formed(node: Json, prefix: Seq<char>)
    requires
        node.well_formed(),
    ensures
        with_default_prefix(node, prefix).well_formed(),
{
    if with_default_prefix(node, prefix) != node {
        let inputs = node.get("inputs"@).unwrap()->Object_0;
        lemma_member_well_formed(node, "inputs"@);
        lemma_put_well_formed(inputs, "filename_prefix"@, Json::String(prefix));
        lemma_with_member_well_formed(
            node,
            "inputs"@,
            Json::Object(put(inputs, "filename_prefix"@, Json::String(prefix))),
        );
    }
}

/// Giving the default prefixes keeps a well-formed graph well formed.
pub proof fn lemma_default_prefix_well_formed(graph: Json, prefix: Seq<char>)
    requires
        graph.well_formed(),
    ensures
        map_nodes(graph, default_prefix_fn(prefix)).well_formed(),
{
    assert forall|node: Json| node.well_formed() implies (#[trigger] default_prefix_fn(prefix)(
        node,
    )).well_formed() by {
        lemma_default_prefix_node_well_formed(node, prefix);
    }
    lemma_map_nodes_well_formed(graph, default_prefix_fn(prefix));
}

/// Broadcasting well-formed parameters to a well-formed node keeps it well
/// formed.
pub proof fn lemma_broadcast_node_well_formed(node: Json, params: Seq<(Seq<char>, Json)>)
    requires
        node.well_formed(),
        Json::Object(params).well_formed(),
    ensures
        broadcast_node(node, params).well_formed(),
{
    if let Some(Json::Object(inputs)) = node.get("inputs"@) {
        lemma_member_well_formed(node, "inputs"@);
        let after = broadcast_inputs(inputs, params);
        assert forall|i: int| 0 <= i < after.len() implies (#[trigger] after[i]).1.well_formed() by {
            assert(inputs[i].1.well_formed());
            lemma_member_well_formed(Json::Object(params), inputs[i].0);
        }
        assert forall|a: int, b: int| 0 <= a < b < after.len() implies (#[trigger] after[a]).0 != (
        #[trigger] after[b]).0 by {
            assert(after[a].0 == inputs[a].0 && after[b].0 == inputs[b].0);
        }
        lemma_with_member_well_formed(node, "inputs"@, Json::Object(after));
    }
}

/// Giving a node a well-formed text keeps a well-formed graph well formed.
pub proof fn lemma_node_text_well_formed(graph: Json, node_id: Seq<char>, text: Json)
    requires
        graph.well_formed(),
        text.well_formed(),
    ensures
        with_node_text(graph, node_id, text).well_formed(),
{
    if with_node_text(graph, node_id, text) != graph {
        let node = graph.get(node_id).unwrap();
        let inputs = node.get("inputs"@).unwrap()->Object_0;
        lemma_member_well_formed(graph, node_id);
        lemma_member_well_formed(node, "inputs"@);
        lemma_put_well_formed(inputs, "text"@, text);
        let changed = node.with_member("inputs"@, Json::Object(put(inputs, "text"@, text)));
        lemma_with_member_well_formed(node, "inputs"@, Json::Object(put(inputs, "text"@, text)));
        lemma_with_member_well_formed(graph, node_id, changed);
    }
}

/// Routing well-formed texts keeps a well-formed graph well formed.
pub proof fn lemma_route_text_well_formed(
    graph: Json,
    positive: Option<Json>,
    negative: Option<Json>,
)
    requires
        graph.well_formed(),
        positive matches Some(text) ==> text.well_formed(),
        negative matches Some(text) ==> text.well_formed(),
    ensures
        route_text(graph, positive, negative).well_formed(),
{
    let sampler = first_of_class(graph, "KSampler"@);
    let (g1, applied_pos) = route_by_link(graph, sampler, "positive"@, positive);
    if let (Some(ks), Some(v)) = (sampler, positive) {
        if let Some(target) = link_source(graph, ks, "positive"@) {
            lemma_node_text_well_formed(graph, target, v);
        }
    }
    let (g2, applied_neg) = route_by_link(g1, sampler, "negative"@, negative);
    if let (Some(ks), Some(v)) = (sampler, negative) {
        if let Some(target) = link_source(g1, ks, "negative"@) {
            lemma_node_text_well_formed(g1, target, v);
        }
    }
    let ids = sort_texts(ids_of_class(g2.entries(), "CLIPTextEncode"@));
    let g3 = route_by_rank(g2, ids, 0, positive, applied_pos);
    if let Some(v) = positive {
        if !applied_pos && 0 < ids.len() {
            lemma_node_text_well_formed(g2, ids[0], v);
        }
    }
    if let Some(v) = negative {
        if !applied_neg && 1 < ids.len() {
            lemma_node_text_well_formed(g3, ids[1], v);
        }
    }
}

/// Applying well-formed parameters keeps a well-formed graph well formed.
pub proof fn lemma_apply_params_well_formed(graph: Json, params: Json)
    requires
        graph.well_formed(),
        params.well_formed(),
    ensures
        apply_params(graph, params).well_formed(),
{
    if let Json::Object(entries) = params {
        let positive = lookup(entries, "text_positive"@);
        let negative = lookup(entries, "text_negative"@);
        lemma_member_well_formed(params, "text_positive"@);
        lemma_member_well_formed(params, "text_negative"@);
        let routed = if positive.is_some() || negative.is_some() {
            route_text(graph, positive, negative)
        } else {
            graph
        };
        if positive.is_some() || negative.is_some() {
            lemma_route_text_well_formed(graph, positive, negative);
        }
        assert forall|node: Json| node.well_formed() implies (#[trigger] broadcast_fn(entries)(
            node,
        )).well_formed() by {
            lemma_broadcast_node_well_formed(node, entries);
        }
        lemma_map_nodes_well_formed(routed, broadcast_fn(entries));
    }
}

/// Whether the value of every pair is well formed.
pub open spec fn values_well_formed<K>(pairs: Seq<(K, Json)>) -> bool {
    forall|i: int| 0 <= i < pairs.len() ==> (#[trigger] pairs[i]).1.well_formed()
}

/// Putting pairs with well-formed values into well-formed entries keeps
/// them well formed.
pub proof fn lemma_put_all_well_formed(
    entries: Seq<(Seq<char>, Json)>,
    pairs: Seq<(Seq<char>, Json)>,
)
    requires
        Json::Object(entries).well_formed(),
        values_well_formed(pairs),
    ensures
        Json::Object(put_all(entries, pairs)).well_formed(),
    decreases pairs.len(),
{
    if pairs.len() > 0 {
        assert forall|i: int| 0 <= i < pairs.drop_last().len() implies (
        #[trigger] pairs.drop_last()[i]).1.well_formed() by {
            assert(pairs[i].1.well_formed());
        }
        lemma_put_all_well_formed(entries, pairs.drop_last());
        assert(pairs.last().1.well_formed());
        lemma_put_well_formed(
            put_all(entries, pairs.drop_last()),
            pairs.last().0,
            pairs.last().1,
        );
    }
}

/// Taking a member of a well-formed request into well-formed parameters
/// keeps them well formed.
pub proof fn lemma_take_key_well_formed(
    params: Seq<(Seq<char>, Json)>,
    payload: Json,
    key: Seq<char>,
)
    requires
        Json::Object(params).well_formed(),
        payload.well_formed(),
    ensures
        Json::Object(take_key(params, payload, key)).well_formed(),
{
    lemma_member_well_formed(payload, key);
    if let Some(value) = payload.get(key) {
        lemma_put_well_formed(params, key, value);
    }
}

/// The parameters of a well-formed request are well formed.
pub proof fn lemma_merged_params_well_formed(payload: Json)
    requires
        payload.well_formed(),
    ensures
        Json::Object(merged_params(payload)).well_formed(),
{
    let from_params = match payload.get("params"@) {
        Some(Json::Object(entries)) => put_all(Seq::empty(), entries),
        _ => Seq::empty(),
    };
    lemma_member_well_formed(payload, "params"@);
    if let Some(Json::Object(entries)) = payload.get("params"@) {
        lemma_put_all_well_formed(Seq::empty(), entries);
    }
    let with_seed = take_key(from_params, payload, "seed"@);
    lemma_take_key_well_formed(from_params, payload, "seed"@);
    let with_steps = take_key(with_seed, payload, "steps"@);
    lemma_take_key_well_formed(with_seed, payload, "steps"@);
    let with_cfg = take_key(with_steps, payload, "cfg"@);
    lemma_take_key_well_formed(with_steps, payload, "cfg"@);
    let with_sampler_name = take_key(with_cfg, payload, "sampler_name"@);
    lemma_take_key_well_formed(with_cfg, payload, "sampler_name"@);
    let with_scheduler = take_key(with_sampler_name, payload, "scheduler"@);
    lemma_take_key_well_formed(with_sampler_name, payload, "scheduler"@);
    let with_denoise = take_key(with_scheduler, payload, "denoise"@);
    lemma_take_key_well_formed(with_scheduler, payload, "denoise"@);
    let with_width = take_key(with_denoise, payload, "width"@);
    lemma_take_key_well_formed(with_denoise, payload, "width"@);
    let with_height = take_key(with_width, payload, "height"@);
    lemma_take_key_well_formed(with_width, payload, "height"@);
    let with_batch_size = take_key(with_height, payload, "batch_size"@);
    lemma_take_key_well_formed(with_height, payload, "batch_size"@);
    let with_ckpt_name = take_key(with_batch_size, payload, "ckpt_name"@);
    lemma_take_key_well_formed(with_batch_size, payload, "ckpt_name"@);
    let with_text = take_key(with_ckpt_name, payload, "text"@);
    lemma_take_key_well_formed(with_ckpt_name, payload, "text"@);
    let with_text_positive = take_key(with_text, payload, "text_positive"@);
    lemma_take_key_well_formed(with_text, payload, "text_positive"@);
    lemma_take_key_well_formed(with_text_positive, payload, "text_negative"@);
}

/// Applying the parameters of a well-formed request keeps a well-formed
/// envelope well formed.
pub proof fn lemma_with_params_well_formed(root: Json, payload: Json)
    requires
        root.well_formed(),
        payload.well_formed(),
    ensures
        with_params(root, payload).well_formed(),
{
    let params = merged_params(payload);
    lemma_merged_params_well_formed(payload);
    lemma_member_well_formed(root, "prompt"@);
    if let Some(graph) = root.get("prompt"@) {
        lemma_apply_params_well_formed(graph, Json::Object(params));
        lemma_with_member_well_formed(root, "prompt"@, apply_params(graph, Json::Object(params)));
    }
}

/// One override with a well-formed value keeps a well-formed envelope well
/// formed.
pub proof fn lemma_apply_set_well_formed(root: Json, path: Seq<Seq<char>>, value: Json)
    requires
        root.well_formed(),
        value.well_formed(),
    ensures
        apply_set(root, path, value).well_formed(),
{
    lemma_member_well_formed(root, "prompt"@);
    if let Some(graph) = root.get("prompt"@) {
        lemma_set_path_well_formed(graph, path, value);
        lemma_with_member_well_formed(root, "prompt"@, set_path(graph, path, value));
        lemma_set_path_well_formed(root, path, value);
    }
}

/// Overrides with well-formed values keep a well-formed envelope well
/// formed.
pub proof fn lemma_apply_sets_well_formed(root: Json, pairs: Seq<(Seq<Seq<char>>, Json)>)
    requires
        root.well_formed(),
        values_well_formed(pairs),
    ensures
        apply_sets(root, pairs).well_formed(),
    decreases pairs.len(),
{
    if pairs.len() > 0 {
        assert forall|i: int| 0 <= i < pairs.drop_last().len() implies (
        #[trigger] pairs.drop_last()[i]).1.well_formed() by {
            assert(pairs[i].1.well_formed());
        }
        lemma_apply_sets_well_formed(root, pairs.drop_last());
        assert(pairs.last().1.well_formed());
        lemma_apply_set_well_formed(
            apply_sets(root, pairs.drop_last()),
            pairs.last().0,
            pairs.last().1,
        );
    }
}

/// Overrides with well-formed values keep a well-formed graph and a
/// well-formed document well formed.
pub proof fn lemma_apply_pairs_well_formed(
    graph: Json,
    document: Json,
    pairs: Seq<(Seq<Seq<char>>, Json)>,
)
    requires
        graph.well_formed(),
        document.well_formed(),
        values_well_formed(pairs),
    ensures
        apply_pairs(graph, document, pairs).graph.well_formed(),
        apply_pairs(graph, document, pairs).document.well_formed(),
    decreases pairs.len(),
{
    if pairs.len() > 0 {
        assert forall|i: int| 0 <= i < pairs.drop_last().len() implies (
        #[trigger] pairs.drop_last()[i]).1.well_formed() by {
            assert(pairs[i].1.well_formed());
        }
        lemma_apply_pairs_well_formed(graph, document, pairs.drop_last());
        let before = apply_pairs(graph, document, pairs.drop_last());
        assert(pairs.last().1.well_formed());
        lemma_set_path_well_formed(before.graph, pairs.last().0, pairs.last().1);
        lemma_set_path_well_formed(before.document, pairs.last().0, pairs.last().1);
    }
}

/// Giving the defaults keeps a well-formed envelope well formed.
pub proof fn lemma_with_defaults_well_formed(root: Json, prefix: Seq<char>)
    requires
        root.well_formed(),
    ensures
        with_defaults(root, prefix).well_formed(),
{
    lemma_member_well_formed(root, "prompt"@);
    if let Some(graph) = root.get("prompt"@) {
        lemma_default_prefix_well_formed(graph, prefix);
        lemma_with_member_well_formed(
            root,
            "prompt"@,
            map_nodes(graph, default_prefix_fn(prefix)),
        );
    }
}

} // verus!
