//! The lists that the history and model endpoints answer with.
use crate::json::{
    array_view, has_key, lemma_entry_decreases, lemma_item_decreases, lemma_position, position,
    Json, JsonValue,
};
use crate::text::append_text;
use crate::text::{str_eq, views};
use vstd::prelude::*;
use vstd::utf8::encode_utf8;

verus! {

broadcast use vstd::std_specs::vec::axiom_vec_index_decreases;

/// The pieces one after the other.
pub open spec fn join_all(pieces: Seq<Seq<Seq<char>>>) -> Seq<Seq<char>>
    decreases pieces.len(),
{
    if pieces.len() == 0 {
        Seq::empty()
    } else {
        join_all(pieces.drop_last()) + pieces.last()
    }
}

/// The filename that an entry itself gives: the string under `filename`.
pub open spec fn own_filename(entry: (Seq<char>, Json)) -> Seq<Seq<char>> {
    match entry.1 {
        Json::String(name) if entry.0 == "filename"@ => seq![name],
        _ => Seq::empty(),
    }
}

/// For each entry, the filename that it gives and those below its value.
pub open spec fn entry_filenames(entries: Seq<(Seq<char>, Json)>) -> Seq<Seq<Seq<char>>>
    decreases entries,
{
    Seq::new(
        entries.len(),
        |i: int|
            if 0 <= i < entries.len() {
                own_filename(entries[i]) + any_filenames(entries[i].1)
            } else {
                Seq::empty()
            },
    )
}

/// For each item, the filenames below it.
pub open spec fn item_filenames(items: Seq<Json>) -> Seq<Seq<Seq<char>>>
    decreases items,
{
    Seq::new(
        items.len(),
        |i: int|
            if 0 <= i < items.len() {
                any_filenames(items[i])
            } else {
                Seq::empty()
            },
    )
}

/// Every string that stands under a key `filename` anywhere in `v`, in the
/// order of the tree.
pub open spec fn any_filenames(v: Json) -> Seq<Seq<char>>
    decreases v,
{
    match v {
        Json::Object(entries) => join_all(entry_filenames(entries)),
        Json::Array(items) => join_all(item_filenames(items)),
        _ => Seq::empty(),
    }
}

/// Appends to `out` every string that stands under a key `filename`
/// anywhere in `v`, in the order of the tree.
pub fn collect_any_filenames(v: &JsonValue, out: &mut Vec<String>)
    ensures
        views(final(out)@) == views(old(out)@) + any_filenames(v@),
    decreases v@,
{
    let ghost start = views(out@);
    match v {
        JsonValue::Object(map) => {
            let ghost pieces = entry_filenames(map@);
            let mut i: usize = 0;
            assert(pieces.take(0) =~= Seq::empty());
            assert(start + Seq::<Seq<char>>::empty() =~= start);
            while i < map.len()
                invariant
                    i <= map@.len(),
                    v@ == Json::Object(map@),
                    pieces == entry_filenames(map@),
                    views(out@) == start + join_all(pieces.take(i as int)),
                decreases map@.len() - i,
            {
                let ghost before = views(out@);
                if str_eq(map.key_at(i).as_str(), "filename") {
                    match map.value_at(i) {
                        JsonValue::String(name) => {
                            out.push(name.clone());
                            assert(views(out@) =~= before.push(name@));
                        },
                        _ => {},
                    }
                }
                let member = map.value_at(i);
                assert(member@ == map@[i as int].1);
                proof {
                    lemma_entry_decreases(v@, i as int);
                }
                collect_any_filenames(member, out);
                proof {
                    assert(pieces.take(i + 1).drop_last() =~= pieces.take(i as int));
                    assert(views(out@) =~= start + (join_all(pieces.take(i as int)) + pieces[i as int]));
                }
                i += 1;
            }
            assert(pieces.take(i as int) =~= pieces);
        },
        JsonValue::Array(items) => {
            let ghost pieces = item_filenames(array_view(items@));
            let mut i: usize = 0;
            assert(pieces.take(0) =~= Seq::empty());
            assert(start + Seq::<Seq<char>>::empty() =~= start);
            while i < items.len()
                invariant
                    i <= items@.len(),
                    v@ == Json::Array(array_view(items@)),
                    pieces == item_filenames(array_view(items@)),
                    views(out@) == start + join_all(pieces.take(i as int)),
                decreases items@.len() - i,
            {
                let item = &items[i];
                assert(item@ == array_view(items@)[i as int]);
                proof {
                    lemma_item_decreases(v@, i as int);
                }
                collect_any_filenames(item, out);
                proof {
                    assert(pieces.take(i + 1).drop_last() =~= pieces.take(i as int));
                    assert(views(out@) =~= start + (join_all(pieces.take(i as int)) + pieces[i as int]));
                }
                i += 1;
            }
            assert(pieces.take(i as int) =~= pieces);
        },
        _ => {
            assert(start + Seq::<Seq<char>>::empty() =~= start);
        },
    }
}

/// The filenames below the member under `key`, if there is one.
pub open spec fn member_filenames(entries: Seq<(Seq<char>, Json)>, key: Seq<char>) -> Seq<
    Seq<char>,
> {
    if has_key(entries, key) {
        any_filenames(entries[position(entries, key)].1)
    } else {
        Seq::empty()
    }
}

/// For each entry, the filenames that its value gives for `id`.
pub open spec fn entry_id_filenames(entries: Seq<(Seq<char>, Json)>, id: Seq<char>) -> Seq<
    Seq<Seq<char>>,
>
    decreases entries,
{
    Seq::new(
        entries.len(),
        |i: int|
            if 0 <= i < entries.len() {
                filenames_for_id(entries[i].1, id)
            } else {
                Seq::empty()
            },
    )
}

/// For each item, the filenames that it gives for `id`.
pub open spec fn item_id_filenames(items: Seq<Json>, id: Seq<char>) -> Seq<Seq<Seq<char>>>
    decreases items,
{
    Seq::new(
        items.len(),
        |i: int|
            if 0 <= i < items.len() {
                filenames_for_id(items[i], id)
            } else {
                Seq::empty()
            },
    )
}

/// The filenames that a history gives for the prompt `id`. An object gives
/// the filenames below its member under `id`, then those that its member
/// under `history` gives, then those that each of its members gives, that
/// one once more; an array gives those that its items give.
pub open spec fn filenames_for_id(v: Json, id: Seq<char>) -> Seq<Seq<char>>
    decreases v,
{
    match v {
        Json::Object(entries) => member_filenames(entries, id) + (if has_key(entries, "history"@) {
            filenames_for_id(entries[position(entries, "history"@)].1, id)
        } else {
            Seq::empty()
        }) + join_all(entry_id_filenames(entries, id)),
        Json::Array(items) => join_all(item_id_filenames(items, id)),
        _ => Seq::empty(),
    }
}

/// Appends to `out` the filenames that the history `v` gives for the prompt
/// `prompt_id`.
pub fn collect_filenames_for_id(v: &JsonValue, prompt_id: &str, out: &mut Vec<String>)
    ensures
        views(final(out)@) == views(old(out)@) + filenames_for_id(v@, prompt_id@),
    decreases v@,
{
    let ghost start = views(out@);
    match v {
        JsonValue::Object(map) => {
            match map.get(prompt_id) {
                Some(entry) => collect_any_filenames(entry, out),
                None => {
                    assert(start + Seq::<Seq<char>>::empty() =~= start);
                },
            }
            let ghost after_entry = views(out@);
            match map.get("history") {
                Some(hist) => {
                    proof {
                        lemma_position(map@, "history"@);
                        lemma_entry_decreases(v@, position(map@, "history"@));
                    }
                    collect_filenames_for_id(hist, prompt_id, out);
                },
                None => {
                    assert(after_entry + Seq::<Seq<char>>::empty() =~= after_entry);
                },
            }
            let ghost head = views(out@);
            let ghost pieces = entry_id_filenames(map@, prompt_id@);
            let mut i: usize = 0;
            assert(pieces.take(0) =~= Seq::empty());
            assert(head + Seq::<Seq<char>>::empty() =~= head);
            while i < map.len()
                invariant
                    i <= map@.len(),
                    v@ == Json::Object(map@),
                    pieces == entry_id_filenames(map@, prompt_id@),
                    views(out@) == head + join_all(pieces.take(i as int)),
                decreases map@.len() - i,
            {
                let member = map.value_at(i);
                proof {
                    lemma_entry_decreases(v@, i as int);
                }
                collect_filenames_for_id(member, prompt_id, out);
                proof {
                    assert(pieces.take(i + 1).drop_last() =~= pieces.take(i as int));
                    assert(views(out@) =~= head + (join_all(pieces.take(i as int)) + pieces[i as int]));
                }
                i += 1;
            }
            assert(pieces.take(i as int) =~= pieces);
            assert(views(out@) =~= start + filenames_for_id(v@, prompt_id@));
        },
        JsonValue::Array(items) => {
            let ghost pieces = item_id_filenames(array_view(items@), prompt_id@);
            let mut i: usize = 0;
            assert(pieces.take(0) =~= Seq::empty());
            assert(start + Seq::<Seq<char>>::empty() =~= start);
            while i < items.len()
                invariant
                    i <= items@.len(),
                    v@ == Json::Array(array_view(items@)),
                    pieces == item_id_filenames(array_view(items@), prompt_id@),
                    views(out@) == start + join_all(pieces.take(i as int)),
                decreases items@.len() - i,
            {
                let item = &items[i];
                assert(item@ == array_view(items@)[i as int]);
                proof {
                    lemma_item_decreases(v@, i as int);
                }
                collect_filenames_for_id(item, prompt_id, out);
                proof {
                    assert(pieces.take(i + 1).drop_last() =~= pieces.take(i as int));
                    assert(views(out@) =~= start + (join_all(pieces.take(i as int)) + pieces[i as int]));
                }
                i += 1;
            }
            assert(pieces.take(i as int) =~= pieces);
        },
        _ => {
            assert(start + Seq::<Seq<char>>::empty() =~= start);
        },
    }
}

/// Whether an entry looks like the record of a prompt: its key has eight
/// bytes or more, and its value is an object.
pub open spec fn is_prompt_record(entry: (Seq<char>, Json)) -> bool {
    encode_utf8(entry.0).len() >= 8 && entry.1 is Object
}

/// What an entry gives to the prompt ids: its key, if it looks like the
/// record of a prompt, then the ids below it, if its key is `history`.
pub open spec fn entry_prompt_ids(entries: Seq<(Seq<char>, Json)>) -> Seq<Seq<Seq<char>>>
    decreases entries,
{
    Seq::new(
        entries.len(),
        |i: int|
            if 0 <= i < entries.len() {
                (if is_prompt_record(entries[i]) {
                    seq![entries[i].0]
                } else {
                    Seq::empty()
                }) + (if entries[i].0 == "history"@ {
                    prompt_ids(entries[i].1)
                } else {
                    Seq::empty()
                })
            } else {
                Seq::empty()
            },
    )
}

/// For each item, the prompt ids that it gives.
pub open spec fn item_prompt_ids(items: Seq<Json>) -> Seq<Seq<Seq<char>>>
    decreases items,
{
    Seq::new(
        items.len(),
        |i: int|
            if 0 <= i < items.len() {
                prompt_ids(items[i])
            } else {
                Seq::empty()
            },
    )
}

/// The prompt ids of a history: the keys of an object that look like
/// records of prompts, those of its member `history`, and those of the items
/// of an array.
pub open spec fn prompt_ids(v: Json) -> Seq<Seq<char>>
    decreases v,
{
    match v {
        Json::Object(entries) => join_all(entry_prompt_ids(entries)),
        Json::Array(items) => join_all(item_prompt_ids(items)),
        _ => Seq::empty(),
    }
}

/// Appends to `out` the prompt ids of the history `v`.
pub fn collect_prompt_ids(v: &JsonValue, out: &mut Vec<String>)
    ensures
        views(final(out)@) == views(old(out)@) + prompt_ids(v@),
    decreases v@,
{
    let ghost start = views(out@);
    match v {
        JsonValue::Object(map) => {
            let ghost pieces = entry_prompt_ids(map@);
            let mut i: usize = 0;
            assert(pieces.take(0) =~= Seq::empty());
            assert(start + Seq::<Seq<char>>::empty() =~= start);
            while i < map.len()
                invariant
                    i <= map@.len(),
                    v@ == Json::Object(map@),
                    pieces == entry_prompt_ids(map@),
                    views(out@) == start + join_all(pieces.take(i as int)),
                decreases map@.len() - i,
            {
                let ghost before = views(out@);
                let key = map.key_at(i);
                let member = map.value_at(i);
                if key.as_str().as_bytes().len() >= 8 && member.is_object() {
                    out.push(key.clone());
                    assert(views(out@) =~= before.push(key@));
                }
                if str_eq(key.as_str(), "history") {
                    proof {
                        lemma_entry_decreases(v@, i as int);
                    }
                    collect_prompt_ids(member, out);
                }
                proof {
                    assert(pieces.take(i + 1).drop_last() =~= pieces.take(i as int));
                    assert(views(out@) =~= start + (join_all(pieces.take(i as int)) + pieces[i as int]));
                }
                i += 1;
            }
            assert(pieces.take(i as int) =~= pieces);
        },
        JsonValue::Array(items) => {
            let ghost pieces = item_prompt_ids(array_view(items@));
            let mut i: usize = 0;
            assert(pieces.take(0) =~= Seq::empty());
            assert(start + Seq::<Seq<char>>::empty() =~= start);
            while i < items.len()
                invariant
                    i <= items@.len(),
                    v@ == Json::Array(array_view(items@)),
                    pieces == item_prompt_ids(array_view(items@)),
                    views(out@) == start + join_all(pieces.take(i as int)),
                decreases items@.len() - i,
            {
                let item = &items[i];
                assert(item@ == array_view(items@)[i as int]);
                proof {
                    lemma_item_decreases(v@, i as int);
                }
                collect_prompt_ids(item, out);
                proof {
                    assert(pieces.take(i + 1).drop_last() =~= pieces.take(i as int));
                    assert(views(out@) =~= start + (join_all(pieces.take(i as int)) + pieces[i as int]));
                }
                i += 1;
            }
            assert(pieces.take(i as int) =~= pieces);
        },
        _ => {
            assert(start + Seq::<Seq<char>>::empty() =~= start);
        },
    }
}

/// Whether a flag of the query is set: its value is `true` or `1`.
pub fn is_flag_set(value: Option<&str>) -> (r: bool)
    ensures
        r == (value matches Some(v) && (v@ == "true"@ || v@ == "1"@)),
{
    match value {
        Some(v) => str_eq(v, "true") || str_eq(v, "1"),
        None => false,
    }
}

/// The lines of the history listing: the filenames that the history gives
/// for `prompt_id` where one is asked for, else the prompt ids of the
/// history.
pub fn history_lines(hist: &JsonValue, prompt_id: Option<&str>) -> (lines: Vec<String>)
    ensures
        views(lines@) == match prompt_id {
            Some(id) => filenames_for_id(hist@, id@),
            None => prompt_ids(hist@),
        },
{
    let mut lines: Vec<String> = Vec::new();
    assert(views(lines@) =~= Seq::<Seq<char>>::empty());
    match prompt_id {
        Some(id) => collect_filenames_for_id(hist, id, &mut lines),
        None => collect_prompt_ids(hist, &mut lines),
    }
    assert(Seq::<Seq<char>>::empty() + views(lines@) =~= views(lines@));
    lines
}

/// The lines with a line feed between each two of them.
pub open spec fn joined(lines: Seq<Seq<char>>) -> Seq<char>
    decreases lines.len(),
{
    if lines.len() == 0 {
        Seq::empty()
    } else if lines.len() == 1 {
        lines[0]
    } else {
        joined(lines.drop_last()) + seq!['\n'] + lines.last()
    }
}

/// The lines as one text, a line feed between each two of them.
pub fn join_lines(lines: &[String]) -> (r: String)
    ensures
        r@ == joined(views(lines@)),
{
    let mut out = String::new();
    let mut i: usize = 0;
    assert(views(lines@).take(0) =~= Seq::empty());
    while i < lines.len()
        invariant
            i <= lines@.len(),
            out@ == joined(views(lines@).take(i as int)),
        decreases lines@.len() - i,
    {
        let ghost done = views(lines@).take(i as int);
        let ghost next = views(lines@).take(i + 1);
        assert(next.drop_last() =~= done);
        assert(next.last() == lines@[i as int]@);
        if i > 0 {
            out.push('\n');
            assert(out@ =~= joined(done) + seq!['\n']);
        } else {
            assert(Seq::<char>::empty() + lines@[i as int]@ =~= lines@[i as int]@);
        }
        out = append_text(out.as_str(), lines[i].as_str());
        i += 1;
    }
    assert(views(lines@).take(i as int) =~= views(lines@));
    out
}

/// One line of a model listing.
#[derive(Debug, PartialEq, Eq)]
pub enum ModelLine {
    /// A text, shown as it is.
    Text(String),
    /// A value, shown as JSON on one line.
    Compact(JsonValue),
    /// A value, shown as indented JSON.
    Pretty(JsonValue),
}

/// What a [`ModelLine`] stands for.
pub enum LineModel {
    Text(Seq<char>),
    Compact(Json),
    Pretty(Json),
}

impl View for ModelLine {
    type V = LineModel;

    open spec fn view(&self) -> LineModel {
        match self {
            ModelLine::Text(text) => LineModel::Text(text@),
            ModelLine::Compact(value) => LineModel::Compact(value@),
            ModelLine::Pretty(value) => LineModel::Pretty(value@),
        }
    }
}

/// The line that an item of a model listing is shown as. A string is shown
/// as its text. Where objects are listed by name, an object is shown as the
/// string under its `name`, or as indented JSON where it has none. Any other
/// item is shown as JSON on one line.
pub open spec fn line_of(item: Json, by_name: bool) -> LineModel {
    match item {
        Json::String(text) => LineModel::Text(text),
        Json::Object(_) if by_name => match item.get("name"@) {
            Some(Json::String(name)) => LineModel::Text(name),
            _ => LineModel::Pretty(item),
        },
        _ => LineModel::Compact(item),
    }
}

/// The lines of a model listing, one for each item of the array `v`, as
/// [`line_of`] says; `None` where `v` is no array.
pub fn model_lines(v: &JsonValue, by_name: bool) -> (r: Option<Vec<ModelLine>>)
    ensures
        match r {
            Some(lines) => v@ is Array && lines@.len() == v@->Array_0.len() && forall|i: int|
                0 <= i < lines@.len() ==> (#[trigger] lines@[i])@ == line_of(
                    v@->Array_0[i],
                    by_name,
                ),
            None => !(v@ is Array),
        },
{
    let items = match v.as_array() {
        Some(items) => items,
        None => return None,
    };
    let mut lines: Vec<ModelLine> = Vec::new();
    let mut i: usize = 0;
    while i < items.len()
        invariant
            i <= items@.len(),
            v@ == Json::Array(array_view(items@)),
            lines@.len() == i,
            forall|k: int|
                0 <= k < i ==> (#[trigger] lines@[k])@ == line_of(array_view(items@)[k], by_name),
        decreases items@.len() - i,
    {
        let item = &items[i];
        assert(item@ == array_view(items@)[i as int]);
        let line = match item {
            JsonValue::String(text) => ModelLine::Text(text.clone()),
            JsonValue::Object(_) => {
                if by_name {
                    match item.get("name") {
                        Some(member) => match member.as_str() {
                            Some(name) => ModelLine::Text(name.to_owned()),
                            None => ModelLine::Pretty(item.clone()),
                        },
                        None => ModelLine::Pretty(item.clone()),
                    }
                } else {
                    ModelLine::Compact(item.clone())
                }
            },
            _ => ModelLine::Compact(item.clone()),
        };
        lines.push(line);
        i += 1;
    }
    Some(lines)
}

} // verus!
