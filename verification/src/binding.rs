//! Binding configuration to the fields of a configuration-properties type
//! and to `#[value]` fields: which key each field is read from, and what a
//! missing value gives.

use vstd::prelude::*;
use crate::config::ConfigValue;
use crate::naming::field_name_to_config_key;
use crate::text::{concat2, replace_char};

verus! {

/// The key a field is bound to: its own key under the type's prefix,
/// separated by a dot, or the key alone when the prefix is empty.
pub open spec fn prefixed_key(prefix: Seq<char>, key: Seq<char>) -> Seq<char> {
    if prefix.len() == 0 {
        key
    } else {
        prefix + seq!['.'] + key
    }
}

/// The message of a required configuration value that is missing.
pub open spec fn missing_config_message(key: Seq<char>) -> Seq<char> {
    "Required config '"@ + key + "' not found"@
}

/// The configuration key of field `field` of a type with prefix `prefix`:
/// the key given in `#[config("key")]`, else the field name with each `_`
/// turned into `-`, under the prefix and a dot unless the prefix is empty
/// (`database` and `max_size` give `database.max-size`).
pub fn property_key(prefix: &str, field: &str, key_override: Option<String>) -> (r: String)
    ensures
        r@ == prefixed_key(
            prefix@,
            match key_override {
                Some(k) => k@,
                None => replace_char(field@, '_', '-'),
            },
        ),
{
    let key = match key_override {
        Some(k) => k,
        None => field_name_to_config_key(field),
    };
    if prefix.unicode_len() == 0 {
        key
    } else {
        let with_dot = concat2(prefix, ".");
        proof {
            reveal_strlit(".");
        }
        let r = concat2(with_dot.as_str(), key.as_str());
        assert(r@ =~= prefix@ + seq!['.'] + key@);
        r
    }
}

/// The value bound to a required field read under `key`: the value found,
/// or, when there is none, the error `Required config '<key>' not found`.
pub fn bind_required(key: &str, v: Option<ConfigValue>) -> (r: Result<ConfigValue, String>)
    ensures
        match v {
            Some(x) => r == Ok::<ConfigValue, String>(x),
            None => r is Err && r->Err_0@ == missing_config_message(key@),
        },
{
    match v {
        Some(x) => Ok(x),
        None => {
            let a = concat2("Required config '", key);
            let m = concat2(a.as_str(), "' not found");
            Err(m)
        },
    }
}

/// The value injected into a `#[value("key")]` field: the value found under
/// the key, else the default given with the attribute, else, when there is
/// none, the error `Required config '<key>' not found`.
pub fn inject_value(key: &str, found: Option<ConfigValue>, default: Option<ConfigValue>) -> (r: Result<ConfigValue, String>)
    ensures
        match (found, default) {
            (Some(x), _) => r == Ok::<ConfigValue, String>(x),
            (None, Some(d)) => r == Ok::<ConfigValue, String>(d),
            (None, None) => r is Err && r->Err_0@ == missing_config_message(key@),
        },
{
    match found {
        Some(x) => Ok(x),
        None => match default {
            Some(d) => Ok(d),
            None => bind_required(key, None),
        },
    }
}

} // verus!
