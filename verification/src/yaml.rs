//! The YAML values of `serde_yaml`, as far as the merge tree reads them.
//!
//! A `serde_yaml::Value` is opaque to the verifier. What the library needs to
//! know of one is given a name here, and each name is tied to the call that
//! computes it by a function whose contract is taken on trust.

use serde_yaml::Value;
use vstd::prelude::*;

verus! {

/// `serde_yaml::Value`, declared as an opaque type: nothing inside a value is
/// visible to the verifier.
#[verifier::external_type_specification]
#[verifier::external_body]
pub struct ExValue(serde_yaml::Value);

/// What `a == b` returns for two YAML values.
pub uninterp spec fn yaml_eq(a: Value, b: Value) -> bool;

/// For a YAML mapping, its entries in the order in which it is walked;
/// `None` for any other value.
pub uninterp spec fn yaml_entries(value: Value) -> Option<Seq<(Value, Value)>>;

/// For a YAML string, its text; `None` for any other value.
pub uninterp spec fn yaml_text(value: Value) -> Option<Seq<char>>;

/// How deep a YAML value nests: a measure that is smaller for the value of
/// an entry than for the mapping that holds the entry.
pub uninterp spec fn yaml_depth(value: Value) -> nat;

/// Whether the tree takes two leaf values for one: they are the same value,
/// or `==` holds them equal.
pub open spec fn same_value(a: Value, b: Value) -> bool {
    a == b || yaml_eq(a, b)
}

/// Calls `==` of `serde_yaml::Value`.
///
/// Trusted: the result is what `yaml_eq` names, and a value equals itself
/// (the comparison is reflexive, two NaN numbers included).
#[verifier::external_body]
pub(crate) fn values_equal(a: &Value, b: &Value) -> (r: bool)
    ensures
        r == yaml_eq(*a, *b),
        *a == *b ==> r,
{
    a == b
}

/// Calls `clone` of `serde_yaml::Value`.
///
/// Trusted: the copy is the same value as the one it was made from.
#[verifier::external_body]
pub(crate) fn clone_value(value: &Value) -> (r: Value)
    ensures
        r == *value,
{
    value.clone()
}

/// Takes a YAML value apart: a mapping gives its entries, by
/// `Mapping::into_iter`; any other value comes back as it was.
///
/// Trusted: the entries are what `yaml_entries` names; no two keys of a
/// mapping are strings with the same text, since a mapping holds a key once;
/// and each entry's value nests less deep than the mapping that holds it.
#[verifier::external_body]
pub(crate) fn into_entries(value: Value) -> (r: Result<Vec<(Value, Value)>, Value>)
    ensures
        match r {
            Ok(entries) => {
                &&& yaml_entries(value) == Some(entries@)
                &&& forall|i: int, j: int|
                    0 <= i < j < entries@.len() && yaml_text(#[trigger] entries@[i].0).is_some()
                        ==> yaml_text(entries@[i].0) != yaml_text(#[trigger] entries@[j].0)
                &&& forall|i: int|
                    0 <= i < entries@.len() ==> yaml_depth(#[trigger] entries@[i].1) < yaml_depth(
                        value,
                    )
            },
            Err(other) => yaml_entries(value).is_none() && other == value,
        },
{
    match value {
        Value::Mapping(mapping) => Ok(mapping.into_iter().collect()),
        other => Err(other),
    }
}

/// Calls `Value::as_str`.
///
/// Trusted: the result is the text that `yaml_text` names.
#[verifier::external_body]
pub(crate) fn key_text(key: &Value) -> (r: Option<String>)
    ensures
        match r {
            Some(text) => yaml_text(*key) == Some(text@),
            None => yaml_text(*key).is_none(),
        },
{
    key.as_str().map(String::from)
}

/// Builds the YAML string `Value::String(text)`.
///
/// Trusted: the value is a string with that text, and no mapping.
#[verifier::external_body]
pub(crate) fn text_value(text: String) -> (r: Value)
    ensures
        yaml_text(r) == Some(text@),
        yaml_entries(r).is_none(),
{
    Value::String(text)
}

/// Builds the YAML mapping of the given entries, by `Mapping::from_iter`.
///
/// Trusted: where every key is a string and no two keys have the same text,
/// the mapping holds exactly these entries, in this order.
#[verifier::external_body]
pub(crate) fn mapping_value(entries: Vec<(Value, Value)>) -> (r: Value)
    requires
        forall|i: int| 0 <= i < entries@.len() ==> yaml_text(#[trigger] entries@[i].0).is_some(),
        forall|i: int, j: int|
            0 <= i < j < entries@.len() ==> yaml_text(#[trigger] entries@[i].0) != yaml_text(
                #[trigger] entries@[j].0,
            ),
    ensures
        yaml_entries(r) == Some(entries@),
{
    Value::Mapping(entries.into_iter().collect())
}

} // verus!
