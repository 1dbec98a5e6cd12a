//! Plugin-configuration resolution: which CLI binary the bar invokes and
//! which row geometry it renders.
use crate::types::{
    spec_row_height_from, RowHeight, CLAVE_BINARY_KEY, ROW_HEIGHT_KEY,
};
use std::collections::BTreeMap;
use vstd::prelude::*;

verus! {

/// The value stored under the key whose text is `key`, if any.
pub open spec fn config_lookup(config: Map<String, String>, key: Seq<char>) -> Option<String> {
    if exists|k: String| config.contains_key(k) && k@ == key {
        Some(config[choose|k: String| config.contains_key(k) && k@ == key])
    } else {
        None
    }
}

/// `BTreeMap::get` with a string-slice key: the value stored under the key
/// equal to `key`, or `None` when no key is. The key text identifies at most
/// one stored key, which is what makes the choice below the one `get` finds.
#[verifier::external_body]
fn config_get(config: &BTreeMap<String, String>, key: &str) -> (r: Option<String>)
    ensures
        r == config_lookup(config@, key@),
{
    config.get(key).cloned()
}

/// What `resolve_binary` answers for a configuration: the configured value
/// when present and non-empty.
pub open spec fn spec_resolve_binary(config: Map<String, String>) -> Option<Seq<char>> {
    match config_lookup(config, CLAVE_BINARY_KEY@) {
        Some(v) => if v@.len() > 0 {
            Some(v@)
        } else {
            None
        },
        None => None,
    }
}

/// The `clave` binary this bar must invoke, from its plugin configuration.
/// An empty value counts as absent.
pub fn resolve_binary(config: &BTreeMap<String, String>) -> (r: Option<String>)
    ensures
        r matches Some(v) ==> spec_resolve_binary(config@) == Some(v@),
        r is None <==> spec_resolve_binary(config@) is None,
{
    match config_get(config, CLAVE_BINARY_KEY) {
        Some(v) => if !v.as_str().is_empty() {
            Some(v)
        } else {
            None
        },
        None => None,
    }
}

/// Which row geometry this bar renders, from its plugin configuration; a
/// missing or unknown value fails closed to `Double`.
pub fn resolve_row_height(config: &BTreeMap<String, String>) -> (r: RowHeight)
    ensures
        r == spec_row_height_from(
            match config_lookup(config@, ROW_HEIGHT_KEY@) {
                Some(v) => Some(v@),
                None => None,
            },
        ),
{
    match config_get(config, ROW_HEIGHT_KEY) {
        Some(v) => RowHeight::from_config_value(Some(v.as_str())),
        None => RowHeight::from_config_value(None),
    }
}

} // verus!
