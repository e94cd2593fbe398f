//! The serialization capability boundary.
//!
//! Structurally-complex record fields (the dependency list and the tag list)
//! cannot be stored as engine-native scalars; they are folded into a single
//! string payload and parsed back on read.  The wire format itself is opaque
//! to the store and only has to round-trip, so it is delegated to serde_json
//! over plain tuples of strings; the names below stand for what those calls
//! return.

use vstd::prelude::*;

verus! {

/// A dependency reduced to plain values: the rendered identifier and the
/// dependency's name, summary and version.
pub uninterp spec fn deps_json_of(
    v: Seq<(Seq<char>, (Seq<char>, Seq<char>, Seq<char>))>,
) -> Seq<char>;

/// The dependency list a payload parses back to, or `None` when the payload
/// is not a valid rendering of one.
pub uninterp spec fn deps_json_parse(
    s: Seq<char>,
) -> Option<Seq<(Seq<char>, (Seq<char>, Seq<char>, Seq<char>))>>;

/// The payload for an optional tag list.
pub uninterp spec fn tags_json_of(t: Option<Seq<Seq<char>>>) -> Seq<char>;

/// The tag list a payload parses back to, or `None` when the payload is not
/// a valid rendering of one.
pub uninterp spec fn tags_json_parse(s: Seq<char>) -> Option<Seq<Seq<char>>>;

/// Relies on `serde_json::to_string` over `Vec<(String, (String, String,
/// String))>`: the result depends on the value alone, and
/// `serde_json::from_str` parses it back to an equal value.  Serializing
/// vectors, tuples and strings is infallible and involves no non-string map
/// keys, so a string always comes back.
#[verifier::external_body]
pub fn encode_dep_list(v: &Vec<(String, (String, String, String))>) -> (r: Option<String>)
    ensures
        r is Some,
        match r {
            Some(s) => s@ == deps_json_of(v.deep_view()) && deps_json_parse(s@) == Some(
                v.deep_view(),
            ),
            None => true,
        },
{
    serde_json::to_string(v).ok()
}

/// Relies on `serde_json::from_str` over the same shape: the result depends
/// on the string alone, and an empty string is not a valid rendering of
/// anything.
#[verifier::external_body]
pub fn decode_dep_list(s: &str) -> (r: Option<Vec<(String, (String, String, String))>>)
    ensures
        match r {
            Some(v) => deps_json_parse(s@) == Some(v.deep_view()),
            None => deps_json_parse(s@) is None,
        },
        s@.len() == 0 ==> r is None,
{
    serde_json::from_str(s).ok()
}

/// Relies on `serde_json::to_string` over `Option<Vec<String>>`: the result
/// depends on the value alone, and `serde_json::from_str` for `Vec<String>`
/// parses it back (an absent list renders as a payload that is not a list,
/// so it reads back as absent).  Serializing options, vectors and strings
/// is infallible and involves no non-string map keys, so a string always
/// comes back.
#[verifier::external_body]
pub fn encode_tag_list(t: &Option<Vec<String>>) -> (r: Option<String>)
    ensures
        r is Some,
        match r {
            Some(s) => s@ == tags_json_of(t.deep_view()) && tags_json_parse(s@) == t.deep_view(),
            None => true,
        },
{
    serde_json::to_string(t).ok()
}

/// Relies on `serde_json::from_str` over `Vec<String>`: the result depends
/// on the string alone, and an empty string is not a valid rendering of
/// anything.
#[verifier::external_body]
pub fn decode_tag_list(s: &str) -> (r: Option<Vec<String>>)
    ensures
        match r {
            Some(v) => tags_json_parse(s@) == Some(v.deep_view()),
            None => tags_json_parse(s@) is None,
        },
        s@.len() == 0 ==> r is None,
{
    serde_json::from_str(s).ok()
}

} // verus!
