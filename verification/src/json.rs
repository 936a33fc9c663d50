//! Reading the raw source map out of its JSON text.
//!
//! The JSON itself is parsed by serde_json into a `serde_json::Value`, which
//! this crate treats as opaque; the shape checks - which fields must exist
//! and what type each must have - are this module's own verified logic. The
//! trusted items below each stand for one serde_json function.

use vstd::prelude::*;

use crate::errors::MapError;
use crate::parser::RawSourceMapping;

verus! {

#[verifier::external_type_specification]
#[verifier::external_body]
pub struct ExJsonValue(serde_json::Value);

#[verifier::external_type_specification]
#[verifier::external_body]
pub struct ExJsonError(serde_json::Error);

/// Relies on serde_json::from_str: parses the text into a JSON value tree,
/// or fails on malformed JSON.
#[verifier::external_body]
fn json_from_str(s: &str) -> Result<serde_json::Value, serde_json::Error> {
    serde_json::from_str::<serde_json::Value>(s)
}

/// Relies on serde_json::Error's Display impl: renders the parser's message.
#[verifier::external_body]
fn json_error_message(e: &serde_json::Error) -> String {
    e.to_string()
}

/// Relies on serde_json::Value::get: the member of an object under a key,
/// `None` when the value is no object or has no such member.
#[verifier::external_body]
fn json_get<'a>(v: &'a serde_json::Value, key: &str) -> Option<&'a serde_json::Value> {
    v.get(key)
}

/// Relies on serde_json::Value::as_str: the string slice of a JSON string,
/// `None` for every other kind of value.
#[verifier::external_body]
fn json_as_str(v: &serde_json::Value) -> Option<&str> {
    v.as_str()
}

/// Relies on serde_json::Value::as_array: the elements of a JSON array,
/// `None` for every other kind of value.
#[verifier::external_body]
fn json_as_array(v: &serde_json::Value) -> Option<&Vec<serde_json::Value>> {
    v.as_array()
}

/// Relies on serde_json::Value::is_null: true exactly for JSON `null`.
#[verifier::external_body]
fn json_is_null(v: &serde_json::Value) -> bool {
    v.is_null()
}

fn shape_error(what: &str) -> (r: MapError)
    ensures
        r is Json,
{
    MapError::Json(what.to_owned())
}

/// The strings of a JSON array value: `None` when the value is no array or
/// some element is no string.
fn string_array(v: &serde_json::Value) -> (r: Option<Vec<String>>) {
    let arr = match json_as_array(v) {
        Some(a) => a,
        None => {
            return None;
        },
    };
    let n: usize = arr.len();
    let mut out: Vec<String> = Vec::new();
    let mut i: usize = 0;
    while i < n
        invariant
            i <= n,
            n == arr@.len(),
        decreases n - i,
    {
        match json_as_str(&arr[i]) {
            Some(s) => {
                out.push(s.to_owned());
            },
            None => {
                return None;
            },
        }
        i += 1;
    }
    Some(out)
}

/// Parses source-map JSON text into the raw structure.
///
/// The shape required: `file` and `mappings` must be strings, `sources` and
/// `names` arrays of strings; `sourceRoot` may be absent or null, else it
/// must be a string. Malformed JSON and every shape mismatch fail with
/// [`MapError::Json`]; what the fields hold is decided by the JSON text, which
/// this crate does not model, so nothing more is promised here.
pub fn parse_map_json(json: &str) -> (r: Result<RawSourceMapping, MapError>)
    ensures
        r matches Err(e) ==> e is Json,
{
    let v = match json_from_str(json) {
        Ok(v) => v,
        Err(e) => {
            return Err(MapError::Json(json_error_message(&e)));
        },
    };
    let file: String = match json_get(&v, "file") {
        Some(f) => match json_as_str(f) {
            Some(s) => s.to_owned(),
            None => {
                return Err(shape_error("the \"file\" field is not a string"));
            },
        },
        None => {
            return Err(shape_error("the \"file\" field is missing"));
        },
    };
    let source_root: Option<String> = match json_get(&v, "sourceRoot") {
        None => None,
        Some(x) => {
            if json_is_null(x) {
                None
            } else {
                match json_as_str(x) {
                    Some(s) => Some(s.to_owned()),
                    None => {
                        return Err(shape_error("the \"sourceRoot\" field is not a string"));
                    },
                }
            }
        },
    };
    let sources: Vec<String> = match json_get(&v, "sources") {
        Some(x) => match string_array(x) {
            Some(list) => list,
            None => {
                return Err(shape_error("the \"sources\" field is not an array of strings"));
            },
        },
        None => {
            return Err(shape_error("the \"sources\" field is missing"));
        },
    };
    let names: Vec<String> = match json_get(&v, "names") {
        Some(x) => match string_array(x) {
            Some(list) => list,
            None => {
                return Err(shape_error("the \"names\" field is not an array of strings"));
            },
        },
        None => {
            return Err(shape_error("the \"names\" field is missing"));
        },
    };
    let mappings: String = match json_get(&v, "mappings") {
        Some(f) => match json_as_str(f) {
            Some(s) => s.to_owned(),
            None => {
                return Err(shape_error("the \"mappings\" field is not a string"));
            },
        },
        None => {
            return Err(shape_error("the \"mappings\" field is missing"));
        },
    };
    Ok(RawSourceMapping { file, source_root, sources, names, mappings })
}

} // verus!
