//! The addresses of the engine's endpoints.
use crate::error::{AppError, AppResult};
use crate::text::{chars_of, append_text, strip_trailing, trim_end_matches};
use vstd::prelude::*;

verus! {

/// The base address as it is held: without the slashes at its end.
pub fn normalize_base_url(base_url: &str) -> (r: String)
    ensures
        r@ == strip_trailing(base_url@, '/'),
{
    trim_end_matches(base_url, '/')
}

/// The address of the endpoint `path` below `base_url`.
pub fn endpoint_url(base_url: &str, path: &str) -> (r: String)
    ensures
        r@ == base_url@ + "/"@ + path@,
{
    let with_slash = append_text(base_url, "/");
    append_text(with_slash.as_str(), path)
}

/// Whether `c` may stand in the name of a model category: a letter or a
/// digit of ASCII, `_` or `-`.
pub open spec fn is_category_char(c: char) -> bool {
    ||| 'a' <= c <= 'z'
    ||| 'A' <= c <= 'Z'
    ||| '0' <= c <= '9'
    ||| c == '_'
    ||| c == '-'
}

/// Whether `category` is the name of a model category: nothing but letters
/// and digits of ASCII, `_` and `-`.
pub open spec fn is_category(category: Seq<char>) -> bool {
    forall|i: int| 0 <= i < category.len() ==> is_category_char(#[trigger] category[i])
}

/// Whether `category` is the name of a model category.
pub fn is_valid_model_category(category: &str) -> (r: bool)
    ensures
        r == is_category(category@),
{
    let chars = chars_of(category);
    let mut i: usize = 0;
    while i < chars.len()
        invariant
            i <= chars.len(),
            chars@ == category@,
            forall|k: int| 0 <= k < i ==> is_category_char(#[trigger] chars@[k]),
        decreases chars.len() - i,
    {
        let c = chars[i];
        let ok = ('a' <= c && c <= 'z') || ('A' <= c && c <= 'Z') || ('0' <= c && c <= '9') || c
            == '_' || c == '-';
        if !ok {
            return false;
        }
        i += 1;
    }
    true
}

/// The address from which the models of `category` are listed, below the
/// base address `base_url`. Fails for a name that is no model category.
pub fn models_in_category_url(base_url: &str, category: &str) -> (r: AppResult<String>)
    ensures
        match r {
            Ok(url) => is_category(category@) && url@ == base_url@ + "/models/"@ + category@,
            Err(e) => {
                &&& !is_category(category@)
                &&& e matches AppError::ComfyUI(detail)
                &&& detail@ == "Invalid model category"@
            },
        },
{
    if !is_valid_model_category(category) {
        return Err(AppError::ComfyUI("Invalid model category".to_owned()));
    }
    let prefix = append_text(base_url, "/models/");
    Ok(append_text(prefix.as_str(), category))
}

} // verus!
