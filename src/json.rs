use vstd::prelude::*;

verus! {

/// The text that a JSON document stands for, when the document is one JSON
/// string (escapes resolved); `None` for any other document.
pub uninterp spec fn json_string_value(doc: Seq<char>) -> Option<Seq<char>>;

/// The compact rendering of a JSON document; `None` when the parser rejects
/// the document (not JSON, nested deeper than its limit of 128, or a number
/// out of range).
pub uninterp spec fn json_compact_text(doc: Seq<char>) -> Option<Seq<char>>;

/// Relies on `serde_json::from_str::<String>`: it succeeds exactly on a JSON
/// string literal, handing back its decoded text.
#[verifier::external_body]
pub(crate) fn decode_json_string(doc: &str) -> (r: Option<String>)
    ensures
        r is Some <==> json_string_value(doc@) is Some,
        r matches Some(t) ==> json_string_value(doc@) == Some(t@),
{
    serde_json::from_str::<String>(doc).ok()
}

/// Relies on `serde_json::from_str::<serde_json::Value>`, which parses a JSON
/// document or rejects it, and on the `Display` of `serde_json::Value`, which
/// prints the parsed value back in compact form.
#[verifier::external_body]
pub(crate) fn compact_json(doc: &str) -> (r: Option<String>)
    ensures
        r is Some <==> json_compact_text(doc@) is Some,
        r matches Some(t) ==> json_compact_text(doc@) == Some(t@),
{
    match serde_json::from_str::<serde_json::Value>(doc) {
        Ok(v) => Some(v.to_string()),
        Err(_) => None,
    }
}

} // verus!
