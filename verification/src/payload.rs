//! The navigation pipe's payload: a JSON object of which the bar reads four
//! members, `{"uuid":"…"}`, `{"commit":true}`, `{"row":N}` and
//! `{"dir":"next"|"prev"}`. Parsing is serde_json's; what the members mean
//! is the model's.
use vstd::prelude::*;

verus! {

/// The members of a navigation payload the bar reads, each present only
/// when the payload holds it with the expected JSON type.
#[derive(Debug, Clone, PartialEq, Eq)]
pub struct NavFields {
    /// A string member `uuid`: focus that agent's registered pane.
    pub uuid: Option<String>,
    /// A boolean member `commit`: launch the dormant selection.
    pub commit: Option<bool>,
    /// A non-negative integer member `row`: the 1-based display row.
    pub row: Option<u64>,
    /// A string member `dir`: walk the current block.
    pub dir: Option<String>,
}

/// A payload's members as plain values.
pub ghost struct NavFieldsView {
    pub uuid: Option<Seq<char>>,
    pub commit: Option<bool>,
    pub row: Option<u64>,
    pub dir: Option<Seq<char>>,
}

impl View for NavFields {
    type V = NavFieldsView;

    open spec fn view(&self) -> NavFieldsView {
        NavFieldsView {
            uuid: match self.uuid {
                Some(u) => Some(u@),
                None => None,
            },
            commit: self.commit,
            row: self.row,
            dir: match self.dir {
                Some(d) => Some(d@),
                None => None,
            },
        }
    }
}

/// A parse result as plain values.
pub open spec fn fields_view(f: Option<NavFields>) -> Option<NavFieldsView> {
    match f {
        Some(x) => Some(x@),
        None => None,
    }
}

/// What serde_json makes of a payload text: `None` when the text is not
/// JSON, else the four members as `Value::get` and the typed accessors
/// read them.
pub uninterp spec fn json_nav_fields(text: Seq<char>) -> Option<NavFieldsView>;

/// Parses the text with `serde_json::from_str` into a `serde_json::Value`
/// and reads its members `uuid` and `dir` with `Value::as_str`, `commit`
/// with `Value::as_bool` and `row` with `Value::as_u64`, each found with
/// `Value::get` (which finds nothing in a value that is not an object).
/// The contract only names the result: it is a function of the text alone.
#[verifier::external_body]
pub(crate) fn parse_nav_fields(payload: &str) -> (r: Option<NavFields>)
    ensures
        fields_view(r) == json_nav_fields(payload@),
{
    match serde_json::from_str::<serde_json::Value>(payload) {
        Ok(v) => Some(NavFields {
            uuid: v.get("uuid").and_then(serde_json::Value::as_str).map(String::from),
            commit: v.get("commit").and_then(serde_json::Value::as_bool),
            row: v.get("row").and_then(serde_json::Value::as_u64),
            dir: v.get("dir").and_then(serde_json::Value::as_str).map(String::from),
        }),
        Err(_) => None,
    }
}

} // verus!
