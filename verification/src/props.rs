//! Kind-specific block properties and the parsing of their stored payloads.

use vstd::prelude::*;

use crate::record::{page_kind, text_kind, BlockRecord, RecV, is_page_kind, is_text_kind};

verus! {

/// The properties a page block carries.
#[derive(Clone, Debug)]
pub struct PageProps {
    pub title: String,
}

/// The properties a text block carries.
#[derive(Clone, Debug)]
pub struct TextProps {
    pub text: String,
}

/// What parsing a stored payload under the page schema yields: the title
/// when the payload is a JSON object with a string field "title", nothing
/// otherwise.
pub uninterp spec fn page_props_of(s: Seq<char>) -> Option<Seq<char>>;

/// What parsing a stored payload under the text schema yields: the text
/// when the payload is a JSON object with a string field "text", nothing
/// otherwise.
pub uninterp spec fn text_props_of(s: Seq<char>) -> Option<Seq<char>>;

/// Relies on serde_json::from_str and serde_json::Value::get / as_str:
/// parses the payload as JSON and reads its string field "title". The
/// result depends on the payload alone.
#[verifier::external_body]
pub fn parse_title_prop(s: &str) -> (r: Option<String>)
    ensures
        r is Some <==> page_props_of(s@) is Some,
        r matches Some(t) ==> Some(t@) == page_props_of(s@),
{
    match serde_json::from_str::<serde_json::Value>(s) {
        Ok(v) => match v.get("title") {
            Some(t) => t.as_str().map(|x| x.to_owned()),
            None => None,
        },
        Err(_) => None,
    }
}

/// Relies on serde_json::from_str and serde_json::Value::get / as_str:
/// parses the payload as JSON and reads its string field "text". The
/// result depends on the payload alone.
#[verifier::external_body]
pub fn parse_text_prop(s: &str) -> (r: Option<String>)
    ensures
        r is Some <==> text_props_of(s@) is Some,
        r matches Some(t) ==> Some(t@) == text_props_of(s@),
{
    match serde_json::from_str::<serde_json::Value>(s) {
        Ok(v) => match v.get("text") {
            Some(t) => t.as_str().map(|x| x.to_owned()),
            None => None,
        },
        Err(_) => None,
    }
}

/// Whether a stored row's payload parses under the schema of its kind.
pub open spec fn rec_ok(rv: RecV) -> bool {
    &&& (rv.kind == page_kind() ==> page_props_of(rv.props) is Some)
    &&& (rv.kind == text_kind() ==> text_props_of(rv.props) is Some)
}

/// Every row of `sv` that carries a parent pointer has a payload that
/// parses under its kind's schema.
pub open spec fn parented_ok(sv: Seq<RecV>) -> bool {
    forall|i: int|
        0 <= i < sv.len() && (#[trigger] sv[i]).parent_id is Some ==> rec_ok(sv[i])
}

/// Checks a row's payload against the schema of its kind.
pub fn check_props(rec: &BlockRecord) -> (r: bool)
    ensures
        r == rec_ok(rec@),
{
    proof {
        crate::record::lemma_kinds_distinct();
    }
    if is_page_kind(&rec.kind) {
        parse_title_prop(rec.props.as_str()).is_some()
    } else if is_text_kind(&rec.kind) {
        parse_text_prop(rec.props.as_str()).is_some()
    } else {
        true
    }
}

} // verus!
