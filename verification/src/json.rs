//! JSON objects whose values are strings, read and written by `serde_json`.

use crate::string_map::{ascending, map_of, TextMap};
use vstd::prelude::*;

verus! {

/// The error of `serde_json`: why a text could not be read.
#[verifier::external_type_specification]
#[verifier::external_body]
pub struct ExJsonError(serde_json::Error);

/// What `serde_json::from_str` reads from a text as a map from strings to
/// strings: the map, or nothing where it returns an error.
pub uninterp spec fn object_entries(text: Seq<char>) -> Option<TextMap>;

/// The text that `serde_json::to_string_pretty` writes for a map from strings
/// to strings.
pub uninterp spec fn object_text(entries: TextMap) -> Seq<char>;

/// Calls `serde_json::from_str` for a `BTreeMap<String, String>` and hands the
/// entries out as pairs. Of the call it claims that its result depends on the
/// text alone: the entries of the map that `object_entries` names, or an error
/// where that names none.
#[verifier::external_body]
pub(crate) fn read_object(text: &str) -> (r: Result<Vec<(String, String)>, serde_json::Error>)
    ensures
        match r {
            Ok(pairs) => object_entries(text@) == Some(map_of(pairs@)),
            Err(_) => object_entries(text@) is None,
        },
{
    let map: std::collections::BTreeMap<String, String> = serde_json::from_str(text)?;
    Ok(map.into_iter().collect())
}

/// Calls `serde_json::to_string_pretty` on a `BTreeMap` of the pairs, whose
/// keys are ascending and so differ. Of the call it claims that a map from
/// strings to strings is always written, that the text depends on the map
/// alone, and that `serde_json::from_str` reads the same map back from it.
#[verifier::external_body]
pub(crate) fn write_object(pairs: &Vec<(String, String)>) -> (r: Result<String, serde_json::Error>)
    requires
        ascending(pairs@),
    ensures
        match r {
            Ok(text) => text@ == object_text(map_of(pairs@)) && object_entries(text@) == Some(
                map_of(pairs@),
            ),
            Err(_) => false,
        },
{
    let map: std::collections::BTreeMap<&String, &String> =
        pairs.iter().map(|pair| (&pair.0, &pair.1)).collect();
    serde_json::to_string_pretty(&map)
}

} // verus!
