use vstd::prelude::*;

verus! {

/// What serde_json makes of `content` read as a JSON value: `None` where it
/// is no valid JSON, `Some(None)` where it is valid JSON but no object, and
/// `Some(Some(keys))` for an object, with the keys in the order in which the
/// object's map walks them.
pub uninterp spec fn json_object_keys(content: Seq<char>) -> Option<Option<Seq<Seq<char>>>>;

/// `serde_json::from_str` into a `serde_json::Value`, reduced to the keys of
/// the object it holds; the result is named by `json_object_keys`.
#[verifier::external_body]
pub(crate) fn parse_object_keys(content: &str) -> (r: Option<Option<Vec<String>>>)
    ensures
        r.deep_view() == json_object_keys(content@),
{
    match serde_json::from_str::<serde_json::Value>(content) {
        Ok(serde_json::Value::Object(map)) => Some(Some(map.keys().cloned().collect())),
        Ok(_) => Some(None),
        Err(_) => None,
    }
}

/// What serde_json makes of `content` read as a list of strings: `None`
/// where it is no JSON array of strings, else the strings in order.
pub uninterp spec fn json_string_list(content: Seq<char>) -> Option<Seq<Seq<char>>>;

/// `serde_json::from_str` into a `Vec<String>`; the result is named by
/// `json_string_list`.
#[verifier::external_body]
pub(crate) fn parse_string_list(content: &str) -> (r: Option<Vec<String>>)
    ensures
        r.deep_view() == json_string_list(content@),
{
    serde_json::from_str::<Vec<String>>(content).ok()
}

} // verus!
