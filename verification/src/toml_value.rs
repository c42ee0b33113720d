//! A TOML document as a tree of plain values.

use crate::entries::{find, lookup};
use vstd::prelude::*;

verus! {

/// A value of a TOML document. A float is held by its bits, a date by its
/// text, and a table by its entries in the order of their keys.
pub enum TomlValue {
    String(String),
    Integer(i64),
    Float(u64),
    Boolean(bool),
    Datetime(String),
    Array(Vec<TomlValue>),
    Table(Vec<(String, TomlValue)>),
}

impl TomlValue {
    /// The value under `key`, when `self` is a table that has the key.
    pub open spec fn entry(self, key: Seq<char>) -> Option<TomlValue> {
        match self {
            TomlValue::Table(entries) => lookup(entries@, key),
            _ => None,
        }
    }

    /// The value under `key`, when `self` is a table that has the key.
    pub fn get(&self, key: &str) -> (value: Option<&TomlValue>)
        ensures
            value == match self.entry(key@) {
                Some(v) => Some(&v),
                None => None,
            },
    {
        match self {
            TomlValue::Table(entries) => {
                match find(entries, key) {
                    Some(i) => Some(&entries[i].1),
                    None => None,
                }
            },
            _ => None,
        }
    }

    pub fn is_table(&self) -> (yes: bool)
        ensures
            yes == (self is Table),
    {
        match self {
            TomlValue::Table(_) => true,
            _ => false,
        }
    }

    pub fn is_array(&self) -> (yes: bool)
        ensures
            yes == (self is Array),
    {
        match self {
            TomlValue::Array(_) => true,
            _ => false,
        }
    }
}

/// `toml::Value`: a value as the `toml` crate holds it, of which nothing is
/// known here.
#[verifier::external_type_specification]
#[verifier::external_body]
pub struct ExTomlCrateValue(toml::Value);

/// What the `toml` crate reads from the bytes of a document: its tree, or
/// nothing where the bytes are no TOML document.
pub uninterp spec fn toml_document(bytes: Seq<u8>) -> Option<TomlValue>;

/// Converts a `toml::Value` variant by variant: a float to its bits with
/// `f64::to_bits`, a date to its text, an array item by item, and a table
/// entry by entry in the order in which the crate's map yields them.
#[verifier::external_body]
fn from_toml_crate(value: &toml::Value) -> TomlValue {
    match value {
        toml::Value::String(s) => TomlValue::String(s.clone()),
        toml::Value::Integer(i) => TomlValue::Integer(*i),
        toml::Value::Float(f) => TomlValue::Float(f.to_bits()),
        toml::Value::Boolean(b) => TomlValue::Boolean(*b),
        toml::Value::Datetime(d) => TomlValue::Datetime(d.to_string()),
        toml::Value::Array(a) => TomlValue::Array(a.iter().map(from_toml_crate).collect()),
        toml::Value::Table(t) => TomlValue::Table(
            t.iter().map(|(k, v)| (k.clone(), from_toml_crate(v))).collect(),
        ),
    }
}

/// `toml::from_slice` for a `toml::Value`, converted with `from_toml_crate`:
/// the same bytes always give the same tree, and bytes that are no UTF-8 or
/// no TOML give nothing.
#[verifier::external_body]
fn read_toml_crate(bytes: &[u8]) -> (tree: Option<TomlValue>)
    ensures
        tree == toml_document(bytes@),
{
    toml::from_slice::<toml::Value>(bytes).ok().map(|value| from_toml_crate(&value))
}

/// Reads a TOML document.
pub fn parse(bytes: &[u8]) -> (tree: Option<TomlValue>)
    ensures
        tree == toml_document(bytes@),
{
    read_toml_crate(bytes)
}

} // verus!
