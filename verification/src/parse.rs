//! The boundary to the external structured-format parser.
//!
//! Parsing is the one step the library does not perform itself; everything
//! after it — conversion, lookup, merging — is verified against the name
//! given here to the parse result.
use vstd::prelude::*;

use crate::raw::{raw_entries_view, raw_wf, RawV, RawValue};

verus! {

/// The parse of one fragment text: `None` for malformed text, otherwise the
/// top-level table's entries. The result is a function of the text alone;
/// the parser yields each table's keys once and in a fixed order.
pub uninterp spec fn parsed_toml(s: Seq<char>) -> Option<Seq<(Seq<char>, RawV)>>;

/// Declares toml's value type so that the reshaping helper below can take
/// it; the verified logic never looks inside such a value.
#[verifier::external_type_specification]
#[verifier::external_body]
pub struct ExTomlValue(toml::Value);

/// Helper of `parse_fragment`: reshapes a parsed `toml::Value` tree into the
/// plain form the verified logic reads, one variant arm to one variant arm;
/// every kind outside this domain collapses to `RawValue::Other`.
/// `parse_fragment` states the contract for the combined call.
#[verifier::external_body]
fn raw_of_toml(v: toml::Value) -> RawValue {
    match v {
        toml::Value::String(s) => RawValue::Text(s),
        toml::Value::Array(a) => RawValue::Array(a.into_iter().map(raw_of_toml).collect()),
        toml::Value::Table(t) => RawValue::Table(
            t.into_iter().map(|(k, x)| (k, raw_of_toml(x))).collect(),
        ),
        _ => RawValue::Other,
    }
}

/// Relies on toml's parser (`str::parse::<toml::Table>`): the parse result
/// is a function of the text alone (the table type iterates its keys in a
/// fixed, sorted order), and a malformed text is the only failure. The error
/// text is the parser's diagnostic, carried for messages only.
#[verifier::external_body]
pub fn parse_fragment(text: &str) -> (r: Result<Vec<(String, RawValue)>, String>)
    ensures
        r is Ok <==> parsed_toml(text@) is Some,
        r is Ok ==> raw_entries_view(r->Ok_0@, r->Ok_0@.len() as int) == parsed_toml(text@)->0,
        r is Ok ==> raw_wf(RawV::Table(parsed_toml(text@)->0)),
{
    match text.parse::<toml::Table>() {
        Ok(t) => Ok(t.into_iter().map(|(k, x)| (k, raw_of_toml(x))).collect()),
        Err(e) => Err(e.to_string()),
    }
}

} // verus!
