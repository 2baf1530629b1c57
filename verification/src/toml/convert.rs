//! The calls into the `toml` crate: parsing a document and rendering a
//! value inline.

use vstd::prelude::*;

use super::value::{TomlTree, TomlValue};

verus! {

#[verifier::external_type_specification]
#[verifier::external_body]
pub struct ExTomlDeError(::toml::de::Error);

/// What `toml` makes of the document `text`: the value it parses it
/// into, or the error it refuses it with.
pub uninterp spec fn toml_parse(text: Seq<char>) -> Result<TomlTree, ::toml::de::Error>;

/// The one-line rendering `toml` gives a value (its `Display`).
pub uninterp spec fn toml_inline(value: TomlTree) -> Seq<char>;

/// The `toml::Value` built, variant for variant, from a value of the
/// form `tree`: what the same content is as `toml` holds it.
pub uninterp spec fn toml_value_of(tree: TomlTree) -> ::toml::Value;

/// Moves a `toml::Value` into a [`TomlValue`], variant for variant, a
/// table's entries in the order `toml::Table` iterates them. That order
/// is the keys' sorted order because `toml::Table` is a `BTreeMap` keyed
/// by `String` while the crate's `preserve_order` feature is off, as it
/// is in this build: nothing here enables it, and enabling it would make
/// the table an insertion-ordered map and this claim false.
///
/// Claims that every table of the result holds its keys sorted and each
/// once, which is that order, and that nothing is lost: the `toml`
/// value built back from the result's content ([`toml_value_of`]) is
/// `v` itself, as [`to_toml_value`] moves each variant back to the one
/// it came from.
#[verifier::external_body]
fn from_toml_value(v: ::toml::Value) -> (res: TomlValue)
    ensures
        res.well_formed(),
        toml_value_of(res.tree()) == v,
{
    match v {
        ::toml::Value::String(s) => TomlValue::String(s),
        ::toml::Value::Integer(i) => TomlValue::Integer(i),
        f @ ::toml::Value::Float(_) => TomlValue::Float(f),
        ::toml::Value::Boolean(b) => TomlValue::Boolean(b),
        d @ ::toml::Value::Datetime(_) => TomlValue::Datetime(d),
        ::toml::Value::Array(a) => TomlValue::Array(a.into_iter().map(from_toml_value).collect()),
        ::toml::Value::Table(t) => TomlValue::Table(
            t.into_iter().map(|(k, v)| (k, from_toml_value(v))).collect(),
        ),
    }
}

/// Moves a [`TomlValue`] back into the `toml::Value` it stands for,
/// variant for variant.
///
/// Claims that the result is the one [`toml_value_of`] names for the
/// value's content: it depends on that content alone.
#[verifier::external_body]
fn to_toml_value(v: &TomlValue) -> (res: ::toml::Value)
    ensures
        res == toml_value_of(v.tree()),
{
    match v {
        TomlValue::String(s) => ::toml::Value::String(s.clone()),
        TomlValue::Integer(i) => ::toml::Value::Integer(*i),
        TomlValue::Float(f) => f.clone(),
        TomlValue::Boolean(b) => ::toml::Value::Boolean(*b),
        TomlValue::Datetime(d) => d.clone(),
        TomlValue::Array(a) => ::toml::Value::Array(a.iter().map(to_toml_value).collect()),
        TomlValue::Table(t) => ::toml::Value::Table(
            t.iter().map(|(k, v)| (k.clone(), to_toml_value(v))).collect(),
        ),
    }
}

impl TomlValue {
    /// The library's form of a `toml` value, its tables' keys sorted;
    /// turned back with [`to_toml`](Self::to_toml), it gives `v` again.
    pub fn from_toml(v: ::toml::Value) -> (res: TomlValue)
        ensures
            res.well_formed(),
            toml_value_of(res.tree()) == v,
    {
        from_toml_value(v)
    }

    /// The `toml` value this value stands for: the one built from its
    /// content, which gives back the value that
    /// [`from_toml`](Self::from_toml) was handed.
    pub fn to_toml(&self) -> (res: ::toml::Value)
        ensures
            res == toml_value_of(self.tree()),
    {
        to_toml_value(self)
    }
}

/// Parses a TOML document: `toml::from_str::<toml::Value>`.
///
/// Claims that the outcome is the one [`toml_parse`] names for the text,
/// the value or the error, and that the value's tables hold their keys
/// sorted and each once, as `toml::Table` iterates them while the
/// crate's `preserve_order` feature is off (see [`from_toml_value`]).
#[verifier::external_body]
pub(crate) fn parse_toml(text: &str) -> (res: Result<TomlValue, ::toml::de::Error>)
    ensures
        match res {
            Ok(v) => toml_parse(text@) == Ok::<TomlTree, ::toml::de::Error>(v.tree())
                && v.well_formed(),
            Err(e) => toml_parse(text@) == Err::<TomlTree, ::toml::de::Error>(e),
        },
{
    match ::toml::from_str::<::toml::Value>(text) {
        Ok(v) => Ok(from_toml_value(v)),
        Err(e) => Err(e),
    }
}

/// Renders a value on one line: `toml::Value`'s `Display`.
///
/// Claims only that the text is the one [`toml_inline`] names for the
/// value: it depends on the value alone.
#[verifier::external_body]
pub(crate) fn inline_text(v: &TomlValue) -> (res: String)
    ensures
        res@ == toml_inline(v.tree()),
{
    to_toml_value(v).to_string()
}

} // verus!
