//! Writing JSON documents.
//!
//! The documents symposium writes are laid out by `serde_json`. What goes into
//! one is decided here, field by field; how it is spelled is left to that
//! crate, whose values keep their fields in the order they are given.

use vstd::prelude::*;

use crate::json::JsonTree;

verus! {

/// A value `serde_json` can write.
#[verifier::external_type_specification]
#[verifier::external_body]
pub struct ExValue(serde_json::Value);

/// What a `serde_json` value holds, with the fields of an object in the order
/// they are written in.
pub uninterp spec fn value_tree(value: serde_json::Value) -> JsonTree;

/// The text `serde_json` writes a value as, over several indented lines.
pub uninterp spec fn pretty_text(tree: JsonTree) -> Seq<char>;

/// What some values hold.
pub open spec fn item_trees(items: Seq<serde_json::Value>) -> Seq<JsonTree> {
    items.map_values(|item: serde_json::Value| value_tree(item))
}

/// What some fields hold.
pub open spec fn field_trees(fields: Seq<(String, serde_json::Value)>) -> Seq<
    (Seq<char>, JsonTree),
> {
    fields.map_values(|field: (String, serde_json::Value)| (field.0@, value_tree(field.1)))
}

/// Whether no two fields share a key.
pub open spec fn keys_differ(fields: Seq<(String, serde_json::Value)>) -> bool {
    forall|i: int, j: int|
        0 <= i < j < fields.len() ==> (#[trigger] fields[i]).0@ != (#[trigger] fields[j]).0@
}

/// `serde_json::Value::String`: the value that holds this text.
#[verifier::external_body]
pub(crate) fn string_value(text: &str) -> (value: serde_json::Value)
    ensures
        value_tree(value) == JsonTree::Str(text@),
{
    serde_json::Value::String(text.to_string())
}

/// `serde_json::Value::Array`: the value that holds these items in this order.
#[verifier::external_body]
pub(crate) fn array_value(items: Vec<serde_json::Value>) -> (value: serde_json::Value)
    ensures
        value_tree(value) == JsonTree::Array(item_trees(items@)),
{
    serde_json::Value::Array(items)
}

/// `serde_json::Value::Object` over a `serde_json::Map` collected from these
/// fields. With the `preserve_order` feature such a map walks its fields in
/// the order they were put in; a repeated key would replace an earlier value,
/// so keys must differ.
#[verifier::external_body]
pub(crate) fn object_value(fields: Vec<(String, serde_json::Value)>) -> (value: serde_json::Value)
    requires
        keys_differ(fields@),
    ensures
        value_tree(value) == JsonTree::Object(field_trees(fields@)),
{
    serde_json::Value::Object(fields.into_iter().collect())
}

/// `serde_json::to_string_pretty`: the text depends on what the value holds
/// alone. Writing a `serde_json::Value` does not fail: its keys are strings and
/// its own serializer reports no error.
#[verifier::external_body]
pub(crate) fn to_string_pretty(value: &serde_json::Value) -> (text: String)
    ensures
        text@ == pretty_text(value_tree(*value)),
{
    serde_json::to_string_pretty(value).expect("a JSON value always serializes")
}

/// Make a file of a text, ending it in a line break.
pub fn ended(text: String) -> (file: String)
    ensures
        file@ == text@.push('\n'),
{
    let mut file = text;
    file.push('\n');
    file
}

/// Write a document: the value's text, ended in a line break.
pub(crate) fn document(value: &serde_json::Value) -> (text: String)
    ensures
        text@ == pretty_text(value_tree(*value)).push('\n'),
{
    ended(to_string_pretty(value))
}

} // verus!
