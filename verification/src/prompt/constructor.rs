//! Prompt templates with `{{placeholder}}` strings.
//!
//! A string of the template that begins with `{{` and ends with `}}` is a
//! placeholder: it is replaced by the member of the inputs that it names.
use crate::error::{AppError, AppResult};
use crate::json::{
    array_view, lemma_entry_decreases, lemma_item_decreases, lemma_position, position, Json,
    JsonValue,
};
use crate::text::{
    append_text, chars_of, ends_with, first_where, lemma_first_where, lemma_first_where_is,
    matches_at, starts_with,
    strip_both, strip_prefixes, strip_suffixes, text_of, trim, trim_bounds,
};
use vstd::prelude::*;

verus! {

broadcast use vstd::std_specs::vec::axiom_vec_index_decreases;

/// Whether a string of a template is a placeholder.
pub open spec fn is_placeholder(s: Seq<char>) -> bool {
    starts_with(s, "{{"@) && ends_with(s, "}}"@)
}

/// The key that a placeholder names: what is left of it without the `{{` at
/// its start, the `}}` at its end and the white space around the rest.
pub open spec fn placeholder_key(s: Seq<char>) -> Seq<char> {
    trim(strip_suffixes(strip_prefixes(s, "{{"@), "}}"@))
}

/// The test for being a failure.
pub open spec fn failed() -> spec_fn(Result<Json, Seq<char>>) -> bool {
    |r: Result<Json, Seq<char>>| r is Err
}

/// The key of the first failure among `results`, if there is one.
pub open spec fn first_failure(results: Seq<Result<Json, Seq<char>>>) -> Option<Seq<char>> {
    let i = first_where(results, failed());
    if 0 <= i < results.len() {
        Some(results[i]->Err_0)
    } else {
        None
    }
}

/// What substituting in each of `items` comes to.
pub open spec fn item_results(items: Seq<Json>, inputs: Json) -> Seq<Result<Json, Seq<char>>>
    decreases items,
{
    Seq::new(
        items.len(),
        |i: int|
            if 0 <= i < items.len() {
                substitute(items[i], inputs)
            } else {
                Ok(Json::Null)
            },
    )
}

/// What substituting in the value of each of `entries` comes to.
pub open spec fn entry_results(entries: Seq<(Seq<char>, Json)>, inputs: Json) -> Seq<
    Result<Json, Seq<char>>,
>
    decreases entries,
{
    Seq::new(
        entries.len(),
        |i: int|
            if 0 <= i < entries.len() {
                substitute(entries[i].1, inputs)
            } else {
                Ok(Json::Null)
            },
    )
}

/// The template with every placeholder replaced by the member of `inputs`
/// that it names, or the key of the first placeholder, in the order of the
/// tree, that names no member of `inputs`.
pub open spec fn substitute(template: Json, inputs: Json) -> Result<Json, Seq<char>>
    decreases template,
{
    match template {
        Json::String(s) if is_placeholder(s) => match inputs.get(placeholder_key(s)) {
            Some(replacement) => Ok(replacement),
            None => Err(placeholder_key(s)),
        },
        Json::Array(items) => {
            let results = item_results(items, inputs);
            match first_failure(results) {
                Some(key) => Err(key),
                None => Ok(Json::Array(Seq::new(items.len(), |i: int| results[i]->Ok_0))),
            }
        },
        Json::Object(entries) => {
            let results = entry_results(entries, inputs);
            match first_failure(results) {
                Some(key) => Err(key),
                None => Ok(
                    Json::Object(
                        Seq::new(entries.len(), |i: int| (entries[i].0, results[i]->Ok_0)),
                    ),
                ),
            }
        },
        _ => Ok(template),
    }
}

/// The message for a placeholder that names no input.
pub open spec fn missing_input(key: Seq<char>) -> Seq<char> {
    "Missing input for placeholder: "@ + key
}

/// Builds prompts from templates.
#[derive(Debug, PartialEq, Eq)]
pub struct PromptConstructor;

/// Whether `s` is a placeholder, and the key that it names if it is one.
pub fn placeholder(s: &str) -> (r: Option<String>)
    ensures
        match r {
            Some(key) => is_placeholder(s@) && key@ == placeholder_key(s@),
            None => !is_placeholder(s@),
        },
{
    let chars = chars_of(s);
    let open = chars_of("{{");
    let close = chars_of("}}");
    proof {
        reveal_strlit("{{");
        reveal_strlit("}}");
    }
    let n = chars.len();
    assert(chars@.subrange(0, n as int) =~= chars@);
    if !matches_at(&chars, 0, n, &open) {
        return None;
    }
    if n < 2 {
        return None;
    }
    assert(chars@.subrange(n - 2, n as int) =~= chars@.skip(n - 2));
    assert(chars@.skip(n - 2).take(2) =~= chars@.skip(n - 2));
    if !matches_at(&chars, n - 2, n, &close) {
        return None;
    }
    let (from, to) = strip_both(&chars, &open, &close);
    let (a, b) = trim_bounds(&chars, from, to);
    Some(text_of(&chars, a, b))
}

impl PromptConstructor {
    /// A constructor of prompts.
    pub fn new() -> (r: Self)
        ensures
            r == PromptConstructor,
    {
        PromptConstructor
    }

    /// The template with every placeholder replaced by the member of
    /// `inputs` that it names. Fails at the first placeholder, in the order
    /// of the tree, that names no member of `inputs`, with the message that
    /// names its key.
    pub fn construct_prompt(&self, template: &JsonValue, inputs: &JsonValue) -> (r: AppResult<
        JsonValue,
    >)
        ensures
            match r {
                Ok(prompt) => substitute(template@, inputs@) == Ok::<Json, Seq<char>>(prompt@),
                Err(e) => substitute(template@, inputs@) matches Err(key) && e
                    matches AppError::PromptConstruction(detail) && detail@ == missing_input(key),
            },
    {
        let mut constructed = template.clone();
        match self.replace_placeholders(&mut constructed, inputs) {
            Ok(()) => Ok(constructed),
            Err(e) => Err(e),
        }
    }

    /// Replaces the placeholders of `value` in place.
    fn replace_placeholders(&self, value: &mut JsonValue, inputs: &JsonValue) -> (r: AppResult<()>)
        ensures
            match r {
                Ok(()) => substitute(old(value)@, inputs@) == Ok::<Json, Seq<char>>(final(value)@),
                Err(e) => substitute(old(value)@, inputs@) matches Err(key) && e
                    matches AppError::PromptConstruction(detail) && detail@ == missing_input(key),
            },
        decreases old(value)@,
    {
        match value {
            JsonValue::Object(map) => {
                let ghost before = map@;
                let ghost results = entry_results(before, inputs@);
                let n = map.len();
                let mut i: usize = 0;
                while i < n
                    invariant
                        i <= n,
                        n == before.len(),
                        map@.len() == n,
                        old(value)@ == Json::Object(before),
                        results == entry_results(before, inputs@),
                        forall|k: int| 0 <= k < i ==> (#[trigger] results[k]) is Ok,
                        forall|k: int|
                            0 <= k < i ==> (#[trigger] map@[k]) == (before[k].0, results[k]->Ok_0),
                        forall|k: int| i <= k < n ==> (#[trigger] map@[k]) == before[k],
                    decreases n - i,
                {
                    let member = map.value_at_mut(i);
                    match self.replace_placeholders(member, inputs) {
                        Ok(()) => {},
                        Err(e) => {
                            proof {
                                assert(results[i as int] is Err);
                                assert forall|k: int| 0 <= k < i implies !failed()(
                                    #[trigger] results[k],
                                ) by {
                                    assert(results[k] is Ok);
                                }
                                lemma_first_where_is(results, failed(), i as int);
                            }
                            return Err(e);
                        },
                    }
                    i += 1;
                }
                proof {
                    assert forall|k: int| 0 <= k < n implies !failed()(#[trigger] results[k]) by {
                        assert(results[k] is Ok);
                    }
                    lemma_first_where_is(results, failed(), n as int);
                    assert(map@ =~= Seq::new(
                        before.len(),
                        |i: int| (before[i].0, results[i]->Ok_0),
                    ));
                }
                Ok(())
            },
            JsonValue::Array(items) => {
                let ghost before = array_view(items@);
                let ghost results = item_results(before, inputs@);
                let n = items.len();
                let mut i: usize = 0;
                while i < n
                    invariant
                        i <= n,
                        n == before.len(),
                        items@.len() == n,
                        old(value)@ == Json::Array(before),
                        results == item_results(before, inputs@),
                        forall|k: int| 0 <= k < i ==> (#[trigger] results[k]) is Ok,
                        forall|k: int|
                            0 <= k < i ==> (#[trigger] array_view(items@)[k]) == results[k]->Ok_0,
                        forall|k: int| i <= k < n ==> (#[trigger] array_view(items@)[k]) == before[k],
                    decreases n - i,
                {
                    let ghost held = array_view(items@);
                    let ghost held_items = items@;
                    assert(held[i as int] == before[i as int]);
                    let member = &mut items[i];
                    match self.replace_placeholders(member, inputs) {
                        Ok(()) => {},
                        Err(e) => {
                            proof {
                                assert(held[i as int] == before[i as int]);
                                assert(results[i as int] is Err);
                                assert forall|k: int| 0 <= k < i implies !failed()(
                                    #[trigger] results[k],
                                ) by {
                                    assert(results[k] is Ok);
                                }
                                lemma_first_where_is(results, failed(), i as int);
                            }
                            return Err(e);
                        },
                    }
                    proof {
                        assert forall|k: int| 0 <= k < n && k != i implies #[trigger] array_view(
                            items@,
                        )[k] == held[k] by {
                            assert(items@[k] == held_items[k]);
                        }
                        assert(array_view(items@)[i as int] == items@[i as int]@);
                    }
                    i += 1;
                }
                proof {
                    assert forall|k: int| 0 <= k < n implies !failed()(#[trigger] results[k]) by {
                        assert(results[k] is Ok);
                    }
                    lemma_first_where_is(results, failed(), n as int);
                    assert(array_view(items@) =~= Seq::new(before.len(), |i: int| results[i]->Ok_0));
                }
                Ok(())
            },
            JsonValue::String(s) => {
                match placeholder(s.as_str()) {
                    Some(key) => match inputs.get(key.as_str()) {
                        Some(replacement) => {
                            *value = replacement.clone();
                            Ok(())
                        },
                        None => Err(
                            AppError::PromptConstruction(
                                append_text("Missing input for placeholder: ", key.as_str()),
                            ),
                        ),
                    },
                    None => Ok(()),
                }
            },
            _ => Ok(()),
        }
    }
}

/// Substituting well-formed inputs into a well-formed template gives a
/// well-formed prompt.
pub proof fn lemma_substitute_well_formed(template: Json, inputs: Json)
    requires
        template.well_formed(),
        inputs.well_formed(),
    ensures
        substitute(template, inputs) matches Ok(prompt) ==> prompt.well_formed(),
    decreases template,
{
    match template {
        Json::String(s) => {
            let key = placeholder_key(s);
            lemma_position(inputs.entries(), key);
            if inputs.get(key).is_some() {
                assert(inputs.entries()[position(inputs.entries(), key)].1.well_formed());
            }
        },
        Json::Array(items) => {
            let results = item_results(items, inputs);
            if let Ok(Json::Array(after)) = substitute(template, inputs) {
                assert forall|i: int| 0 <= i < after.len() implies (#[trigger] after[i]).well_formed() by {
                    lemma_first_where(results, failed());
                    assert(!failed()(results[i]));
                    assert(items[i].well_formed());
                    lemma_item_decreases(template, i);
                    lemma_substitute_well_formed(items[i], inputs);
                }
            }
        },
        Json::Object(entries) => {
            let results = entry_results(entries, inputs);
            if let Ok(Json::Object(after)) = substitute(template, inputs) {
                assert forall|i: int| 0 <= i < after.len() implies (
                #[trigger] after[i]).1.well_formed() by {
                    lemma_first_where(results, failed());
                    assert(!failed()(results[i]));
                    assert(entries[i].1.well_formed());
                    lemma_entry_decreases(template, i);
                    lemma_substitute_well_formed(entries[i].1, inputs);
                }
                assert forall|a: int, b: int| 0 <= a < b < after.len() implies (
                #[trigger] after[a]).0 != (#[trigger] after[b]).0 by {
                    assert(after[a].0 == entries[a].0 && after[b].0 == entries[b].0);
                }
            }
        },
        _ => {},
    }
}

} // verus!
