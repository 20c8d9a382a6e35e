//! Parsing TOML text into a tree, through the `toml` crate.

use vstd::prelude::*;
use crate::decode::{decode_record, decode_tree, decoded_view, Decoded, Failure};
use crate::record::{DecodeError, ErrorKind, RecordModel};
use crate::tree::{Entry, TreeValue};

verus! {

#[verifier::external_type_specification]
#[verifier::external_body]
pub struct ExTomlValue(toml::Value);

#[verifier::external_type_specification]
#[verifier::external_body]
pub struct ExTomlError(toml::de::Error);

/// The value that `toml::from_str` reads from a text, where it reads one.
pub uninterp spec fn toml_document(text: Seq<char>) -> Option<toml::Value>;

/// The tree that holds the same strings, integers, arrays and tables as a
/// TOML value, with every other kind of value as `Other`.
pub uninterp spec fn tree_of_toml(v: toml::Value) -> TreeValue;

/// Relies on `toml::from_str::<toml::Value>`: it parses a whole document,
/// and its result depends on the text alone.
#[verifier::external_body]
fn parse_toml(text: &str) -> (r: Result<toml::Value, toml::de::Error>)
    ensures
        match r {
            Ok(v) => toml_document(text@) == Some(v),
            Err(_) => toml_document(text@) is None,
        },
{
    toml::from_str::<toml::Value>(text)
}

/// Relies on the variants of `toml::Value`: strings, integers, arrays and
/// tables are copied node for node, in the order the value holds them.
#[verifier::external_body]
fn tree_of(v: &toml::Value) -> (r: TreeValue)
    ensures
        r == tree_of_toml(*v),
{
    match v {
        toml::Value::String(s) => TreeValue::Str(s.clone()),
        toml::Value::Integer(i) => TreeValue::Int(*i),
        toml::Value::Array(a) => TreeValue::Array(a.iter().map(tree_of).collect()),
        toml::Value::Table(t) => TreeValue::Table(
            t.iter().map(|(k, x)| Entry { key: k.clone(), value: tree_of(x) }).collect(),
        ),
        _ => TreeValue::Other,
    }
}

/// The tree of a document, where the text is one.
pub open spec fn document_tree(text: Seq<char>) -> Option<TreeValue> {
    match toml_document(text) {
        Some(v) => Some(tree_of_toml(v)),
        None => None,
    }
}

/// Parses TOML text into a tree; `None` where the text is no document.
pub fn parse_document(text: &str) -> (r: Option<TreeValue>)
    ensures
        r == document_tree(text@),
{
    match parse_toml(text) {
        Ok(v) => Some(tree_of(&v)),
        Err(_) => None,
    }
}

/// What decoding a text gives: a text that is no document is a malformed
/// table.
pub open spec fn decode_text_spec(text: Seq<char>) -> Result<(RecordModel, Seq<Failure>), Failure> {
    match document_tree(text) {
        Some(t) => decode_tree(t),
        None => Err((ErrorKind::MalformedTable, Seq::empty())),
    }
}

/// Parses and decodes one record from TOML text, fail-fast.
pub fn decode_text(text: &str) -> (r: Result<Decoded, DecodeError>)
    ensures
        decoded_view(r) == decode_text_spec(text@),
{
    match parse_document(text) {
        Some(t) => decode_record(&t),
        None => {
            proof {
                reveal_strlit("");
            }
            assert(""@ =~= Seq::<char>::empty());
            Err(DecodeError::new(ErrorKind::MalformedTable, ""))
        },
    }
}

} // verus!
